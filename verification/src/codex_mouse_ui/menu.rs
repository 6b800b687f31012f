//! Numbered menus on a screen.
use vstd::prelude::*;

use crate::views;

verus! {

/// The most rows that an option's text may wrap onto.
pub const MAX_CONTINUATION_ROWS: usize = 3;

/// Whether `c` marks the selected option: `›` or `❯`.
pub open spec fn is_marker_char(c: char) -> bool {
    c == '\u{203A}' || c == '\u{276F}'
}

/// The number of spaces that `text` starts with.
pub open spec fn leading_spaces(text: Seq<char>) -> int
    decreases text.len(),
{
    if text.len() > 0 && text[0] == ' ' {
        1 + leading_spaces(text.skip(1))
    } else {
        0
    }
}

/// The number of decimal digits that `text` starts with.
pub open spec fn leading_digits(text: Seq<char>) -> int
    decreases text.len(),
{
    if text.len() > 0 && '0' <= text[0] <= '9' {
        1 + leading_digits(text.skip(1))
    } else {
        0
    }
}

/// Whether `text` is, behind any number of spaces, a number and a `.`, with a
/// space or nothing behind them.
pub open spec fn is_numbered(text: Seq<char>) -> bool {
    let rest = text.skip(leading_spaces(text));
    let digits = leading_digits(rest);
    &&& digits > 0
    &&& digits < rest.len()
    &&& rest[digits] == '.'
    &&& digits + 1 < rest.len() ==> rest[digits + 1] == ' '
}

/// Whether a line is an option of a menu, and if so, whether it carries the
/// selection marker. An unmarked option is indented.
pub open spec fn option_mark(line: Seq<char>) -> Option<bool> {
    let unindented = line.skip(leading_spaces(line));
    if unindented.len() > 0 && is_marker_char(unindented[0]) {
        if is_numbered(unindented.skip(1)) {
            Some(true)
        } else {
            None
        }
    } else if leading_spaces(line) > 0 && is_numbered(unindented) {
        Some(false)
    } else {
        None
    }
}

/// Whether `c` has the Unicode property White_Space.
pub open spec fn is_white_space(c: char) -> bool {
    ||| '\u{9}' <= c <= '\u{d}'
    ||| c == ' '
    ||| c == '\u{85}'
    ||| c == '\u{a0}'
    ||| c == '\u{1680}'
    ||| '\u{2000}' <= c <= '\u{200a}'
    ||| c == '\u{2028}'
    ||| c == '\u{2029}'
    ||| c == '\u{202f}'
    ||| c == '\u{205f}'
    ||| c == '\u{3000}'
}

/// Whether `text` holds nothing but white space.
pub open spec fn is_blank(text: Seq<char>) -> bool {
    forall|i: int| 0 <= i < text.len() ==> is_white_space(#[trigger] text[i])
}

/// What a line is to a menu.
#[derive(Debug, Clone, Copy, PartialEq, Eq, Structural)]
pub enum LineKind {
    /// An option, and whether it carries the selection marker.
    Choice(bool),
    /// The wrapped tail of an option: indented text that is neither an option
    /// nor blank.
    Continuation,
    /// Anything else.
    Other,
}

/// What a line is to a menu.
pub open spec fn line_kind(line: Seq<char>) -> LineKind {
    match option_mark(line) {
        Some(marked) => LineKind::Choice(marked),
        None => if !is_blank(line) && leading_spaces(line) >= 3 {
            LineKind::Continuation
        } else {
            LineKind::Other
        },
    }
}

pub proof fn lemma_leading_spaces(text: Seq<char>, count: int)
    requires
        0 <= count <= text.len(),
        forall|i: int| 0 <= i < count ==> text[i] == ' ',
        count < text.len() ==> text[count] != ' ',
    ensures
        leading_spaces(text) == count,
    decreases text.len(),
{
    if count > 0 {
        lemma_leading_spaces(text.skip(1), count - 1);
    }
}

pub proof fn lemma_leading_digits(text: Seq<char>, count: int)
    requires
        0 <= count <= text.len(),
        forall|i: int| 0 <= i < count ==> '0' <= #[trigger] text[i] <= '9',
        count < text.len() ==> !('0' <= text[count] <= '9'),
    ensures
        leading_digits(text) == count,
    decreases text.len(),
{
    if count > 0 {
        lemma_leading_digits(text.skip(1), count - 1);
    }
}

/// Whether `c` marks the selected option.
pub fn is_marker(c: char) -> (yes: bool)
    ensures
        yes == is_marker_char(c),
{
    c == '\u{203A}' || c == '\u{276F}'
}

/// The characters of `text`.
fn chars_of(text: &str) -> (chars: Vec<char>)
    ensures
        chars@ == text@,
{
    let mut chars: Vec<char> = Vec::new();
    for c in it: text.chars()
        invariant
            it.seq() == text@,
            chars@ == it.seq().take(it.index() as int),
    {
        chars.push(c);
    }
    chars
}

/// The index of the first character at or after `from` that is no space.
fn skip_spaces(line: &[char], from: usize) -> (at: usize)
    requires
        from <= line@.len(),
    ensures
        from <= at <= line@.len(),
        at == from + leading_spaces(line@.skip(from as int)),
{
    let mut at: usize = from;
    while at < line.len() && line[at] == ' '
        invariant
            from <= at <= line@.len(),
            forall|i: int| from <= i < at ==> line@[i] == ' ',
        decreases line@.len() - at,
    {
        at += 1;
    }
    proof {
        lemma_leading_spaces(line@.skip(from as int), at - from);
    }
    at
}

/// Whether the characters from `from` on are a number and a `.`.
fn numbered_from(line: &[char], from: usize) -> (yes: bool)
    requires
        from <= line@.len(),
    ensures
        yes == is_numbered(line@.skip(from as int)),
{
    let start: usize = skip_spaces(line, from);
    let ghost text = line@.skip(from as int);
    let ghost rest = text.skip(leading_spaces(text));
    assert(rest =~= line@.skip(start as int));
    let mut at: usize = start;
    while at < line.len() && '0' <= line[at] && line[at] <= '9'
        invariant
            start <= at <= line@.len(),
            forall|i: int| start <= i < at ==> '0' <= #[trigger] line@[i] <= '9',
        decreases line@.len() - at,
    {
        at += 1;
    }
    proof {
        lemma_leading_digits(rest, at - start);
    }
    at > start && at < line.len() && line[at] == '.' && (at + 1 >= line.len() || line[at + 1]
        == ' ')
}

/// Whether an unpacked line is an option, and if so, whether it is marked.
fn option_mark_of(line: &[char]) -> (mark: Option<bool>)
    ensures
        mark == option_mark(line@),
{
    let start: usize = skip_spaces(line, 0);
    assert(line@.skip(0) =~= line@);
    let ghost unindented = line@.skip(start as int);
    if start < line.len() && is_marker(line[start]) {
        assert(unindented.skip(1) =~= line@.skip(start + 1));
        if numbered_from(line, start + 1) {
            Some(true)
        } else {
            None
        }
    } else if start > 0 && numbered_from(line, start) {
        Some(false)
    } else {
        None
    }
}

/// Parses a menu option line (`› 1. Yes ...` or `  2. No ...`), with
/// or without indentation, returning whether it carries the selection
/// marker.  An unmarked option must be indented so that flush-left
/// numbered lists in ordinary text do not qualify.
pub fn parse_option_line(line: &str) -> (mark: Option<bool>)
    ensures
        mark == option_mark(line@),
{
    option_mark_of(&chars_of(line))
}

/// What a line is to a menu.
pub fn classify_line(line: &str) -> (kind: LineKind)
    ensures
        kind == line_kind(line@),
{
    let chars = chars_of(line);
    if let Some(marked) = option_mark_of(&chars) {
        return LineKind::Choice(marked);
    }
    let indent: usize = skip_spaces(&chars, 0);
    assert(chars@.skip(0) =~= chars@);
    let mut i: usize = 0;
    while i < chars.len()
        invariant
            i <= chars@.len(),
            chars@ == line@,
            option_mark(line@) is None,
            indent == leading_spaces(line@),
            forall|j: int| 0 <= j < i ==> is_white_space(#[trigger] chars@[j]),
        decreases chars@.len() - i,
    {
        let c: char = chars[i];
        let white: bool = ('\u{9}' <= c && c <= '\u{d}') || c == ' ' || c == '\u{85}' || c
            == '\u{a0}' || c == '\u{1680}' || ('\u{2000}' <= c && c <= '\u{200a}') || c
            == '\u{2028}' || c == '\u{2029}' || c == '\u{202f}' || c == '\u{205f}' || c
            == '\u{3000}';
        if !white {
            assert(!is_white_space(chars@[i as int]));
            return if indent >= 3 {
                LineKind::Continuation
            } else {
                LineKind::Other
            };
        }
        i += 1;
    }
    LineKind::Other
}

/// A wrapped tail of an option line: indented text that is neither an
/// option line nor blank.
pub fn is_continuation(line: &str) -> (yes: bool)
    ensures
        yes == (line_kind(line@) is Continuation),
{
    matches!(classify_line(line), LineKind::Continuation)
}

/// Whether the option at `row` is, with the rows that its text may wrap onto,
/// what stands at `at`.
pub open spec fn belongs(kinds: Seq<LineKind>, row: int, at: int) -> bool {
    &&& 0 <= row <= at < kinds.len()
    &&& kinds[row] is Choice
    &&& at - row <= MAX_CONTINUATION_ROWS
    &&& forall|i: int| row < i <= at ==> (#[trigger] kinds[i]) is Continuation
}

/// Whether the option at `next` follows the option at `row` in a menu.
pub open spec fn follows(kinds: Seq<LineKind>, row: int, next: int) -> bool {
    &&& belongs(kinds, row, next - 1)
    &&& next < kinds.len()
    &&& kinds[next] is Choice
}

/// The rows of the options of a menu, and two indices into them.
#[verifier::ext_equal]
pub struct MenuModel {
    pub options: Seq<usize>,
    pub marked_idx: int,
    pub clicked_idx: int,
}

/// Whether `options` are options that follow each other.
pub open spec fn is_chain(kinds: Seq<LineKind>, options: Seq<usize>) -> bool {
    &&& forall|i: int|
        0 <= i < options.len() ==> (#[trigger] options[i]) < kinds.len() && kinds[options[i] as int]
            is Choice
    &&& forall|i: int|
        0 <= i < options.len() - 1 ==> #[trigger] follows(
            kinds,
            options[i] as int,
            options[i + 1] as int,
        )
}

/// Whether `menu` is the menu around the row `clicked`: the longest chain of
/// options around the one that the row belongs to, with at least two options,
/// exactly one of which is marked.
pub open spec fn is_menu(kinds: Seq<LineKind>, clicked: int, menu: MenuModel) -> bool {
    let options = menu.options;
    &&& options.len() >= 2
    &&& is_chain(kinds, options)
    &&& forall|row: int| !follows(kinds, row, options[0] as int)
    &&& forall|row: int| !follows(kinds, options.last() as int, row)
    &&& 0 <= menu.clicked_idx < options.len()
    &&& belongs(kinds, options[menu.clicked_idx] as int, clicked)
    &&& 0 <= menu.marked_idx < options.len()
    &&& forall|i: int|
        0 <= i < options.len() ==> kinds[#[trigger] options[i] as int] == LineKind::Choice(
            i == menu.marked_idx,
        )
}

/// The menu around the row `clicked`, where there is one.
pub open spec fn menu_at(kinds: Seq<LineKind>, clicked: int) -> Option<MenuModel> {
    if exists|menu: MenuModel| is_menu(kinds, clicked, menu) {
        Some(choose|menu: MenuModel| is_menu(kinds, clicked, menu))
    } else {
        None
    }
}

/// A row belongs to one option only.
proof fn lemma_belongs_once(kinds: Seq<LineKind>, a: int, b: int, at: int)
    requires
        belongs(kinds, a, at),
        belongs(kinds, b, at),
    ensures
        a == b,
{
    if a < b {
        assert(kinds[b] is Continuation);
    } else if b < a {
        assert(kinds[a] is Continuation);
    }
}

/// One option only follows another.
proof fn lemma_follows_once(kinds: Seq<LineKind>, row: int, a: int, b: int)
    requires
        follows(kinds, row, a),
        follows(kinds, row, b),
    ensures
        a == b,
{
    if a < b {
        assert(kinds[a] is Continuation);
    } else if b < a {
        assert(kinds[b] is Continuation);
    }
}

/// Two chains that start at the same option agree as long as both go on.
proof fn lemma_chains_agree_downward(
    kinds: Seq<LineKind>,
    a: Seq<usize>,
    b: Seq<usize>,
    len: int,
)
    requires
        is_chain(kinds, a),
        is_chain(kinds, b),
        0 < len <= a.len(),
        len <= b.len(),
        a[0] == b[0],
    ensures
        forall|i: int| 0 <= i < len ==> a[i] == b[i],
    decreases len,
{
    if len > 1 {
        lemma_chains_agree_downward(kinds, a, b, len - 1);
        assert(follows(kinds, a[len - 2] as int, a[len - 2 + 1] as int));
        assert(follows(kinds, b[len - 2] as int, b[len - 2 + 1] as int));
        lemma_follows_once(kinds, a[len - 2] as int, a[len - 1] as int, b[len - 1] as int);
    }
}

/// Two chains that share an option agree above it as long as both go on.
proof fn lemma_chains_agree_upward(
    kinds: Seq<LineKind>,
    a: Seq<usize>,
    i: int,
    b: Seq<usize>,
    j: int,
    up: int,
)
    requires
        is_chain(kinds, a),
        is_chain(kinds, b),
        0 <= i < a.len(),
        0 <= j < b.len(),
        a[i] == b[j],
        0 <= up <= i,
        up <= j,
    ensures
        a[i - up] == b[j - up],
    decreases up,
{
    if up > 0 {
        lemma_chains_agree_upward(kinds, a, i, b, j, up - 1);
        assert(follows(kinds, a[i - up] as int, a[i - up + 1] as int));
        assert(follows(kinds, b[j - up] as int, b[j - up + 1] as int));
        lemma_belongs_once(
            kinds,
            a[i - up] as int,
            b[j - up] as int,
            a[i - up + 1] - 1,
        );
    }
}

/// Two chains with the same first option, neither of which can go on, are the
/// same.
proof fn lemma_full_chains_agree(kinds: Seq<LineKind>, a: Seq<usize>, b: Seq<usize>)
    requires
        is_chain(kinds, a),
        is_chain(kinds, b),
        a.len() > 0,
        b.len() > 0,
        a[0] == b[0],
        forall|row: int| !follows(kinds, a.last() as int, row),
    ensures
        b.len() <= a.len(),
        forall|i: int| 0 <= i < b.len() ==> a[i] == b[i],
{
    if a.len() < b.len() {
        lemma_chains_agree_downward(kinds, a, b, a.len() as int);
        assert(follows(kinds, b[a.len() - 1] as int, b[a.len() - 1 + 1] as int));
        assert(a.last() == b[a.len() - 1]);
        assert(false);
    } else {
        lemma_chains_agree_downward(kinds, a, b, b.len() as int);
    }
}

/// The rows of a chain increase.
pub proof fn lemma_chain_increases(kinds: Seq<LineKind>, options: Seq<usize>, i: int, j: int)
    requires
        is_chain(kinds, options),
        0 <= i < j < options.len(),
    ensures
        options[i] < options[j],
    decreases j - i,
{
    assert(follows(kinds, options[j - 1] as int, options[j - 1 + 1] as int));
    if i < j - 1 {
        lemma_chain_increases(kinds, options, i, j - 1);
    }
}

/// Two chains that share an option, neither of which can go on in either
/// direction, are the same.
proof fn lemma_blocks_agree(kinds: Seq<LineKind>, a: Seq<usize>, i: int, b: Seq<usize>, j: int)
    requires
        is_chain(kinds, a),
        is_chain(kinds, b),
        0 <= i < a.len(),
        0 <= j < b.len(),
        a[i] == b[j],
        forall|row: int| !follows(kinds, row, a[0] as int),
        forall|row: int| !follows(kinds, row, b[0] as int),
        forall|row: int| !follows(kinds, a.last() as int, row),
        forall|row: int| !follows(kinds, b.last() as int, row),
    ensures
        a == b,
        i == j,
{
    if i < j {
        lemma_chains_agree_upward(kinds, a, i, b, j, i);
        assert(follows(kinds, b[j - i - 1] as int, b[j - i - 1 + 1] as int));
        assert(false);
    } else if j < i {
        lemma_chains_agree_upward(kinds, a, i, b, j, j);
        assert(follows(kinds, a[i - j - 1] as int, a[i - j - 1 + 1] as int));
        assert(false);
    }
    lemma_chains_agree_upward(kinds, a, i, b, j, i);
    lemma_full_chains_agree(kinds, a, b);
    lemma_full_chains_agree(kinds, b, a);
    assert(a =~= b);
}

/// There is at most one menu around a row.
pub proof fn menus_are_unique(kinds: Seq<LineKind>, clicked: int, a: MenuModel, b: MenuModel)
    requires
        is_menu(kinds, clicked, a),
        is_menu(kinds, clicked, b),
    ensures
        a == b,
{
    let i = a.clicked_idx;
    let j = b.clicked_idx;
    lemma_belongs_once(kinds, a.options[i] as int, b.options[j] as int, clicked);
    lemma_blocks_agree(kinds, a.options, i, b.options, j);
    assert(kinds[a.options[a.marked_idx] as int] == LineKind::Choice(true));
    assert(kinds[b.options[a.marked_idx] as int] == LineKind::Choice(
        a.marked_idx == b.marked_idx,
    ));
}

/// An active menu located around a clicked or hovered row.
#[derive(Debug, PartialEq, Eq)]
pub struct MenuLookup {
    /// Screen rows of the block's option lines, in order.
    pub options: Vec<usize>,
    /// Index (into `options`) of the `›`-marked option.
    pub marked_idx: usize,
    /// Index (into `options`) of the clicked/hovered option.
    pub clicked_idx: usize,
}

impl View for MenuLookup {
    type V = MenuModel;

    open spec fn view(&self) -> MenuModel {
        MenuModel {
            options: self.options@,
            marked_idx: self.marked_idx as int,
            clicked_idx: self.clicked_idx as int,
        }
    }
}

/// What each line is to a menu.
pub open spec fn kinds_of(lines: Seq<Seq<char>>) -> Seq<LineKind> {
    lines.map_values(|line: Seq<char>| line_kind(line))
}

/// Resolves a click on a wrapped continuation to its option line.
fn find_target(kinds: &[LineKind], clicked: usize) -> (target: Option<usize>)
    requires
        clicked < kinds@.len(),
    ensures
        match target {
            Some(row) => belongs(kinds@, row as int, clicked as int),
            None => forall|row: int| !belongs(kinds@, row, clicked as int),
        },
{
    let mut target: usize = clicked;
    let mut steps: usize = 0;
    while !matches!(kinds[target], LineKind::Choice(_))
        invariant
            clicked < kinds@.len(),
            target <= clicked,
            steps == clicked - target,
            steps <= MAX_CONTINUATION_ROWS,
            forall|i: int| target < i <= clicked ==> (#[trigger] kinds@[i]) is Continuation,
        decreases target,
    {
        if !matches!(kinds[target], LineKind::Continuation) || target == 0 || steps
            == MAX_CONTINUATION_ROWS {
            return None;
        }
        target -= 1;
        steps += 1;
    }
    Some(target)
}

/// Finds the first option of the chain that ends with the option at `target`.
fn find_first(kinds: &[LineKind], target: usize) -> (found: (usize, Ghost<Seq<usize>>))
    requires
        target < kinds@.len(),
        kinds@[target as int] is Choice,
    ensures
        is_chain(kinds@, found.1@),
        found.1@.len() > 0,
        found.1@[0] == found.0,
        found.1@.last() == target,
        forall|row: int| !follows(kinds@, row, found.0 as int),
{
    let mut first: usize = target;
    let mut cursor: usize = target;
    let mut run: usize = 0;
    let ghost mut chain: Seq<usize> = seq![target];
    while cursor > 0
        invariant
            cursor <= first <= target < kinds@.len(),
            run == first - cursor,
            run <= MAX_CONTINUATION_ROWS,
            forall|i: int| cursor <= i < first ==> (#[trigger] kinds@[i]) is Continuation,
            kinds@[first as int] is Choice,
            is_chain(kinds@, chain),
            chain.len() > 0,
            chain[0] == first,
            chain.last() == target,
        ensures
            forall|row: int| !follows(kinds@, row, first as int),
        decreases cursor,
    {
        let prev: usize = cursor - 1;
        if matches!(kinds[prev], LineKind::Choice(_)) {
            proof {
                let longer = seq![prev] + chain;
                assert(follows(kinds@, prev as int, first as int));
                assert forall|i: int| 0 <= i < longer.len() - 1 implies #[trigger] follows(
                    kinds@,
                    longer[i] as int,
                    longer[i + 1] as int,
                ) by {
                    if i > 0 {
                        assert(follows(kinds@, chain[i - 1] as int, chain[i - 1 + 1] as int));
                    }
                }
                chain = longer;
            }
            first = prev;
            cursor = prev;
            run = 0;
        } else if matches!(kinds[prev], LineKind::Continuation) && run < MAX_CONTINUATION_ROWS {
            cursor = prev;
            run += 1;
        } else {
            break;
        }
    }
    (first, Ghost(chain))
}

/// Collects the options that follow each other from `first` on.
fn collect_options(kinds: &[LineKind], first: usize) -> (options: Vec<usize>)
    requires
        first < kinds@.len(),
        kinds@[first as int] is Choice,
    ensures
        options@.len() > 0,
        options@[0] == first,
        is_chain(kinds@, options@),
        forall|row: int| !follows(kinds@, options@.last() as int, row),
{
    let rows: usize = kinds.len();
    let mut options: Vec<usize> = Vec::new();
    options.push(first);
    let mut row: usize = first + 1;
    let mut run: usize = 0;
    while row < rows
        invariant
            rows == kinds@.len(),
            options@.len() > 0,
            options@[0] == first,
            is_chain(kinds@, options@),
            options@.last() < row <= kinds@.len(),
            run == row - 1 - options@.last(),
            run <= MAX_CONTINUATION_ROWS,
            forall|i: int|
                options@.last() < i < row ==> (#[trigger] kinds@[i]) is Continuation,
        ensures
            forall|row: int| !follows(kinds@, options@.last() as int, row),
        decreases kinds@.len() - row,
    {
        if matches!(kinds[row], LineKind::Choice(_)) {
            let ghost before = options@;
            assert(follows(kinds@, before.last() as int, row as int));
            options.push(row);
            proof {
                assert forall|i: int| 0 <= i < options@.len() - 1 implies #[trigger] follows(
                    kinds@,
                    options@[i] as int,
                    options@[i + 1] as int,
                ) by {
                    if i < before.len() - 1 {
                        assert(follows(kinds@, before[i] as int, before[i + 1] as int));
                    }
                }
            }
            run = 0;
        } else if matches!(kinds[row], LineKind::Continuation) && run < MAX_CONTINUATION_ROWS {
            run += 1;
        } else {
            break;
        }
        row += 1;
    }
    options
}

/// Locates the menu around a row, from what each line is to a menu.
pub fn menu_lookup_kinds(kinds: &[LineKind], clicked: usize) -> (lookup: Option<MenuLookup>)
    ensures
        match lookup {
            Some(found) => menu_at(kinds@, clicked as int) == Some(found@),
            None => menu_at(kinds@, clicked as int) is None,
        },
{
    if clicked >= kinds.len() {
        return None;
    }
    let target: usize = match find_target(kinds, clicked) {
        Some(target) => target,
        None => return None,
    };
    let (first, chain) = find_first(kinds, target);
    let options: Vec<usize> = collect_options(kinds, first);
    let ghost at = chain@.len() - 1;
    proof {
        lemma_full_chains_agree(kinds@, options@, chain@);
        assert(options@[at] == target);
        assert forall|menu: MenuModel| is_menu(kinds@, clicked as int, menu) implies menu.options
            == options@ && menu.clicked_idx == at by {
            lemma_belongs_once(
                kinds@,
                menu.options[menu.clicked_idx] as int,
                target as int,
                clicked as int,
            );
            lemma_blocks_agree(kinds@, menu.options, menu.clicked_idx, options@, at);
        }
    }
    if options.len() < 2 {
        return None;
    }
    let mut marked: Option<usize> = None;
    let mut i: usize = 0;
    while i < options.len()
        invariant
            i <= options@.len(),
            is_chain(kinds@, options@),
            forall|menu: MenuModel|
                is_menu(kinds@, clicked as int, menu) ==> menu.options == options@,
            marked is Some ==> marked->0 < i,
            forall|j: int|
                0 <= j < i ==> kinds@[#[trigger] options@[j] as int] == LineKind::Choice(
                    marked == Some(j as usize),
                ),
        decreases options@.len() - i,
    {
        if let LineKind::Choice(true) = kinds[options[i]] {
            if let Some(other) = marked {
                proof {
                    assert forall|menu: MenuModel| !is_menu(kinds@, clicked as int, menu) by {
                        if is_menu(kinds@, clicked as int, menu) {
                            assert(kinds@[menu.options[i as int] as int] == LineKind::Choice(
                                i == menu.marked_idx,
                            ));
                            assert(kinds@[menu.options[other as int] as int] == LineKind::Choice(
                                other == menu.marked_idx,
                            ));
                        }
                    }
                }
                return None;
            }
            marked = Some(i);
        }
        i += 1;
    }
    let marked_idx: usize = match marked {
        Some(marked_idx) => marked_idx,
        None => {
            proof {
                assert forall|menu: MenuModel| !is_menu(kinds@, clicked as int, menu) by {
                    if is_menu(kinds@, clicked as int, menu) {
                        assert(kinds@[menu.options[menu.marked_idx] as int] == LineKind::Choice(
                            true,
                        ));
                    }
                }
            }
            return None;
        },
    };
    let len: usize = options.len();
    let mut clicked_idx: usize = 0;
    while options[clicked_idx] != target
        invariant
            0 <= at < len == options@.len(),
            options@[at] == target,
            clicked_idx <= at,
        ensures
            options@[clicked_idx as int] == target,
        decreases at - clicked_idx,
    {
        clicked_idx += 1;
    }
    proof {
        if clicked_idx < at {
            lemma_chain_increases(kinds@, options@, clicked_idx as int, at);
        }
    }
    let found = MenuLookup { options, marked_idx, clicked_idx };
    proof {
        assert(is_menu(kinds@, clicked as int, found@));
        menus_are_unique(
            kinds@,
            clicked as int,
            found@,
            menu_at(kinds@, clicked as int)->0,
        );
    }
    Some(found)
}

/// Locates the menu around the clicked row.  `None` when the click is
/// not on an active menu: the block must contain at least two numbered
/// options with exactly one selection marker.
pub fn menu_lookup_in(rows: &[String], clicked: usize) -> (lookup: Option<MenuLookup>)
    ensures
        match lookup {
            Some(found) => menu_at(kinds_of(views::texts(rows@)), clicked as int) == Some(found@),
            None => menu_at(kinds_of(views::texts(rows@)), clicked as int) is None,
        },
{
    let mut kinds: Vec<LineKind> = Vec::new();
    let mut i: usize = 0;
    while i < rows.len()
        invariant
            i <= rows@.len(),
            kinds@ == kinds_of(views::texts(rows@)).take(i as int),
        decreases rows@.len() - i,
    {
        kinds.push(classify_line(rows[i].as_str()));
        assert(kinds@ =~= kinds_of(views::texts(rows@)).take(i + 1));
        i += 1;
    }
    assert(kinds@ =~= kinds_of(views::texts(rows@)));
    menu_lookup_kinds(&kinds, clicked)
}

} // verus!
