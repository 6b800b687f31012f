//! What holds of the mouse handling as a whole.
use vstd::prelude::*;

use crate::bytes::{self, CR, ESC, LOWER_M, UPPER_M};
use crate::codex_mouse_ui::menu;
use crate::codex_mouse_ui::report::{self, MouseEvent};
use crate::codex_mouse_ui::screen::{MouseEncoding, MouseMode, ScreenModel};
use crate::codex_mouse_ui::steering::{self, UiModel, MAX_PENDING, MODE_PREFIX};
use crate::filters::model;

verus! {

/// Input may be cut anywhere: handling `a` and then `b` on one screen is
/// handling them as one chunk.
pub proof fn input_may_be_cut_anywhere(
    ui: UiModel,
    screen: ScreenModel,
    a: Seq<u8>,
    b: Seq<u8>,
)
    ensures
        ({
            let first = steering::input_run(ui, screen, a);
            let second = steering::input_run(first.ui, screen, b);
            let both = steering::input_run(ui, screen, a + b);
            &&& both.ui == second.ui
            &&& both.to_child == first.to_child + second.to_child
            &&& both.to_term == first.to_term + second.to_term
        }),
    decreases b.len(),
{
    let first = steering::input_run(ui, screen, a);
    let second = steering::input_run(first.ui, screen, b);
    if b.len() == 0 {
        assert(a + b =~= a);
        assert(first.to_child + second.to_child =~= first.to_child);
        assert(first.to_term + second.to_term =~= first.to_term);
    } else {
        input_may_be_cut_anywhere(ui, screen, a, b.drop_last());
        assert((a + b).drop_last() =~= a + b.drop_last());
        let before = steering::input_run(first.ui, screen, b.drop_last());
        let last = steering::input_step(before.ui, screen, b.last());
        assert(first.to_child + (before.to_child + last.to_child) =~= (first.to_child
            + before.to_child) + last.to_child);
        assert(first.to_term + (before.to_term + last.to_term) =~= (first.to_term
            + before.to_term) + last.to_term);
    }
}

/// Whether a byte completes a mouse report.
pub open spec fn completes_report(ui: UiModel, byte: u8) -> bool {
    &&& ui.pending.len() >= 3
    &&& !steering::is_report_start(ui.pending.push(byte))
    &&& byte == UPPER_M || byte == LOWER_M
    &&& report::mouse_report(ui.pending.push(byte)) is Some
}

/// A byte that completes no mouse report is not lost: it is held back or sent
/// to the child, behind what was held back before it. Nothing is sent to the
/// terminal and nothing else changes.
pub proof fn other_input_reaches_the_child(ui: UiModel, screen: ScreenModel, byte: u8)
    requires
        !completes_report(ui, byte),
    ensures
        ({
            let after = steering::input_step(ui, screen, byte);
            &&& after.to_child + after.ui.pending == ui.pending.push(byte)
            &&& after.to_term == Seq::<u8>::empty()
            &&& after.ui == UiModel { pending: after.ui.pending, ..ui }
        }),
{
    reveal(steering::input_step);
    let after = steering::input_step(ui, screen, byte);
    assert(after.to_child + after.ui.pending =~= ui.pending.push(byte));
}

/// Keyboard input without escape sequences passes unchanged.
pub proof fn plain_input_passes(ui: UiModel, screen: ScreenModel, data: Seq<u8>)
    requires
        ui.pending == Seq::<u8>::empty(),
        !data.contains(ESC),
    ensures
        ({
            let after = steering::input_run(ui, screen, data);
            &&& after.ui == ui
            &&& after.to_child == data
            &&& after.to_term == Seq::<u8>::empty()
        }),
    decreases data.len(),
{
    let after = steering::input_run(ui, screen, data);
    if data.len() > 0 {
        let before = data.drop_last();
        reveal(steering::input_step);
        assert(!before.contains(ESC)) by {
            if before.contains(ESC) {
                let i = before.index_of(ESC);
                assert(data[i] == ESC);
            }
        }
        plain_input_passes(ui, screen, before);
        assert(data[data.len() - 1] != ESC);
        let seen = ui.pending.push(data.last());
        assert(seen[0] == data.last());
        assert(after.to_child =~= data);
        assert(after.to_term =~= seq![]);
        assert(after.ui =~= ui);
    } else {
        assert(data =~= seq![]);
    }
}

/// What is held back of the input is the start of a mouse report, and is
/// bounded.
pub proof fn input_buffering_is_bounded(ui: UiModel, screen: ScreenModel, data: Seq<u8>)
    requires
        steering::is_report_start(ui.pending),
        ui.pending.len() <= MAX_PENDING,
    ensures
        ({
            let after = steering::input_run(ui, screen, data).ui;
            steering::is_report_start(after.pending) && after.pending.len() <= MAX_PENDING
        }),
    decreases data.len(),
{
    if data.len() > 0 {
        reveal(steering::input_step);
        input_buffering_is_bounded(ui, screen, data.drop_last());
    }
}

/// After an event the pointer has the shape of a hand exactly where the mouse
/// is over a menu, and an event on the same row then sends the terminal
/// nothing.
pub proof fn pointer_follows_the_menu(
    ui: UiModel,
    screen: ScreenModel,
    event: MouseEvent,
    raw: Seq<u8>,
    next: MouseEvent,
    next_raw: Seq<u8>,
)
    requires
        next.row == event.row,
    ensures
        ({
            let after = steering::event_step(ui, screen, event, raw);
            &&& after.ui.pointer == (steering::menu_on(screen, event.row) is Some)
            &&& steering::event_step(after.ui, screen, next, next_raw).to_term
                == Seq::<u8>::empty()
        }),
{
}

/// Output that changes nothing under the mouse sends the terminal no pointer
/// shape; after any output the shape fits what is under the mouse.
pub proof fn pointer_follows_the_output(
    ui: UiModel,
    screen: ScreenModel,
    chunk: Seq<u8>,
    row: u16,
    col: u16,
)
    requires
        ui.last_pos == Some((row, col)),
    ensures
        ({
            let after = steering::output_step(ui, screen, chunk);
            &&& after.ui.pointer == (steering::menu_on(screen, row) is Some)
            &&& ui.pointer == (steering::menu_on(screen, row) is Some)
                ==> steering::pointer_update(ui, after.ui.pointer) == Seq::<u8>::empty()
        }),
{
}

/// An option is found at its own index.
pub proof fn lemma_position(options: Seq<usize>, row: usize, at: int)
    requires
        0 <= at < options.len(),
        options[at] == row,
        forall|i: int| 0 <= i < at ==> options[i] != row,
    ensures
        steering::position(options, row) == Some(at),
    decreases at,
{
    if at > 0 {
        lemma_position(options.skip(1), row, at - 1);
    }
}

pub proof fn lemma_menu_position(kinds: Seq<menu::LineKind>, row: int, found: menu::MenuModel)
    requires
        menu::is_menu(kinds, row, found),
    ensures
        steering::position(found.options, found.options[found.clicked_idx]) == Some(
            found.clicked_idx,
        ),
{
    let target = found.options[found.clicked_idx];
    assert forall|i: int| 0 <= i < found.clicked_idx implies found.options[i] != target by {
        menu::lemma_chain_increases(kinds, found.options, i, found.clicked_idx);
    }
    lemma_position(found.options, target, found.clicked_idx);
}

/// Hovering over an option and then clicking it, before the child has redrawn
/// anything, confirms it without any further arrow key: the arrows for the
/// hover have been sent once.
pub proof fn click_after_hover_sends_enter_only(
    ui: UiModel,
    screen: ScreenModel,
    hover: MouseEvent,
    click: MouseEvent,
    raw: Seq<u8>,
)
    requires
        steering::is_hover(hover),
        steering::is_click(click),
        click.row == hover.row,
        steering::menu_on(screen, hover.row) is Some,
    ensures
        steering::event_step(
            steering::event_step(ui, screen, hover, raw).ui,
            screen,
            click,
            raw,
        ).to_child == seq![CR],
{
    let kinds = menu::kinds_of(screen.lines);
    let found = steering::menu_on(screen, hover.row)->0;
    assert(menu::is_menu(kinds, hover.row as int, found));
    lemma_menu_position(kinds, hover.row as int, found);
    let after = steering::event_step(ui, screen, hover, raw).ui;
    let target = found.options[found.clicked_idx];
    assert(after.steered_row == Some(target) || after.steered_row is None);
    let sent = steering::steering_arrows(after, screen, found);
    assert(sent =~= seq![]);
    assert(!steering::is_hover(click)) by {
        assert(0u16 & 32 == 0) by (bit_vector);
    }
    assert(sent.push(CR) =~= seq![CR]);
}

/// While the child has not redrawn anything, more motion over the same option
/// sends it nothing.
pub proof fn hover_is_sent_once(
    ui: UiModel,
    screen: ScreenModel,
    hover: MouseEvent,
    next: MouseEvent,
    raw: Seq<u8>,
)
    requires
        steering::is_hover(hover),
        steering::is_hover(next),
        next.row == hover.row,
        steering::menu_on(screen, hover.row) is Some,
    ensures
        steering::event_step(
            steering::event_step(ui, screen, hover, raw).ui,
            screen,
            next,
            raw,
        ).to_child == Seq::<u8>::empty(),
{
}

/// Hovering over one option and then over another, before the child has
/// redrawn anything, sends the arrows from the first to the second: arrows
/// already sent count as applied. Neither option is the one that still
/// carries the marker.
pub proof fn hovering_on_sends_the_difference(
    ui: UiModel,
    screen: ScreenModel,
    first: MouseEvent,
    second: MouseEvent,
    raw: Seq<u8>,
)
    requires
        steering::is_hover(first),
        steering::is_hover(second),
        steering::menu_on(screen, first.row) is Some,
        steering::menu_on(screen, second.row) is Some,
        ({
            let a = steering::menu_on(screen, first.row)->0;
            let b = steering::menu_on(screen, second.row)->0;
            &&& a.options == b.options
            &&& a.clicked_idx != b.clicked_idx
            &&& a.clicked_idx != a.marked_idx
            &&& b.clicked_idx != b.marked_idx
        }),
    ensures
        steering::event_step(
            steering::event_step(ui, screen, first, raw).ui,
            screen,
            second,
            raw,
        ).to_child == steering::arrows(
            screen.application_cursor,
            steering::menu_on(screen, second.row)->0.clicked_idx - steering::menu_on(
                screen,
                first.row,
            )->0.clicked_idx,
        ),
{
    let kinds = menu::kinds_of(screen.lines);
    let a = steering::menu_on(screen, first.row)->0;
    let b = steering::menu_on(screen, second.row)->0;
    assert(menu::is_menu(kinds, first.row as int, a));
    assert(menu::is_menu(kinds, second.row as int, b));
    lemma_menu_position(kinds, first.row as int, a);
    lemma_menu_position(kinds, second.row as int, b);
}

/// The release that belongs to a click on an option is not sent to the child,
/// wherever it happens, and the release after it is treated like any other.
pub proof fn release_of_a_menu_click_is_swallowed(
    ui: UiModel,
    screen: ScreenModel,
    click: MouseEvent,
    later: ScreenModel,
    release: MouseEvent,
    raw: Seq<u8>,
)
    requires
        steering::is_click(click),
        steering::menu_on(screen, click.row) is Some,
        steering::is_left_release(release),
    ensures
        ({
            let clicked = steering::event_step(ui, screen, click, raw);
            let released = steering::event_step(clicked.ui, later, release, raw);
            &&& released.to_child == Seq::<u8>::empty()
            &&& !released.ui.swallow_release
            &&& steering::event_step(released.ui, later, release, raw).to_child
                == steering::forwarded(later, release, raw)
        }),
{
    assert(!steering::is_hover(click)) by {
        assert(0u16 & 32 == 0) by (bit_vector);
    }
}

/// Away from menus a child that set no mouse protocol is sent nothing, and one
/// that set one is sent the events that it asked for, unchanged where it asked
/// for the SGR encoding.
pub proof fn events_reach_children_that_asked(
    ui: UiModel,
    screen: ScreenModel,
    event: MouseEvent,
    raw: Seq<u8>,
)
    requires
        steering::menu_on(screen, event.row) is None,
        !(steering::is_left_release(event) && ui.swallow_release),
    ensures
        ({
            let sent = steering::event_step(ui, screen, event, raw).to_child;
            &&& screen.mouse_mode == MouseMode::Off ==> sent == Seq::<u8>::empty()
            &&& steering::is_wanted(screen.mouse_mode, event) && screen.mouse_encoding
                == MouseEncoding::Sgr ==> sent == raw
        }),
{
}

/// Mouse reporting that was enabled is known to be on, so that it is disabled
/// at the end, and nothing forgets it.
pub proof fn enabling_is_remembered(
    ui: UiModel,
    screen: ScreenModel,
    chunk: Seq<u8>,
    input: Seq<u8>,
)
    ensures
        steering::needs_enabling(ui, screen, chunk) ==> steering::output_step(
            ui,
            screen,
            chunk,
        ).ui.active,
        ui.active ==> steering::output_step(ui, screen, chunk).ui.active,
        steering::input_run(ui, screen, input).ui.active == ui.active,
    decreases input.len(),
{
    if input.len() > 0 {
        reveal(steering::input_step);
        enabling_is_remembered(ui, screen, chunk, input.drop_last());
    }
}

/// A mode change is seen in the chunk in which its prefix becomes complete,
/// wherever the output is cut: what is carried over from the output before is
/// enough to find it.
pub proof fn mode_changes_are_seen_across_chunks(before: Seq<u8>, chunk: Seq<u8>)
    ensures
        bytes::occurs(steering::carried(before) + chunk, MODE_PREFIX@) <==> exists|at: int|
            bytes::occurs_at(before + chunk, MODE_PREFIX@, at) && at + MODE_PREFIX@.len()
                > before.len(),
        steering::carried(steering::carried(before) + chunk) == steering::carried(before + chunk),
{
    let carry = steering::carried(before);
    let skipped = before.len() - carry.len();
    let near = carry + chunk;
    let all = before + chunk;
    assert(near =~= all.skip(skipped));
    if bytes::occurs(near, MODE_PREFIX@) {
        let at = choose|at: int| bytes::occurs_at(near, MODE_PREFIX@, at);
        lemma_occurs_in_rest(all, skipped, at + skipped);
        assert(bytes::occurs_at(all, MODE_PREFIX@, at + skipped));
    }
    if exists|at: int|
        bytes::occurs_at(all, MODE_PREFIX@, at) && at + MODE_PREFIX@.len() > before.len() {
        let at = choose|at: int|
            bytes::occurs_at(all, MODE_PREFIX@, at) && at + MODE_PREFIX@.len() > before.len();
        lemma_occurs_in_rest(all, skipped, at);
        assert(bytes::occurs_at(near, MODE_PREFIX@, at - skipped));
    }
    assert(steering::carried(near) =~= steering::carried(all));
}

/// What stands in a text behind some bytes stands in the rest of it.
proof fn lemma_occurs_in_rest(all: Seq<u8>, skipped: int, at: int)
    requires
        0 <= skipped <= all.len(),
        skipped <= at,
    ensures
        bytes::occurs_at(all, MODE_PREFIX@, at) == bytes::occurs_at(
            all.skip(skipped),
            MODE_PREFIX@,
            at - skipped,
        ),
{
    let len = MODE_PREFIX@.len() as int;
    if at + len <= all.len() {
        assert(all.subrange(at, at + len) =~= all.skip(skipped).subrange(
            at - skipped,
            at - skipped + len,
        ));
    }
}

/// What is carried over after some chunks.
pub open spec fn carried_after(chunks: Seq<Seq<u8>>) -> Seq<u8>
    decreases chunks.len(),
{
    if chunks.len() == 0 {
        seq![]
    } else {
        steering::carried(carried_after(chunks.drop_last()) + chunks.last())
    }
}

/// However the output is cut, a scan finds a mode change in a chunk exactly
/// where the last byte of its prefix stands in that chunk: over all chunks each
/// is found once.
pub proof fn each_mode_change_is_found_once(chunks: Seq<Seq<u8>>, chunk: Seq<u8>)
    ensures
        ({
            let before = model::concat(chunks);
            &&& carried_after(chunks) == steering::carried(before)
            &&& bytes::occurs(carried_after(chunks) + chunk, MODE_PREFIX@) <==> exists|at: int|
                bytes::occurs_at(before + chunk, MODE_PREFIX@, at) && at + MODE_PREFIX@.len()
                    > before.len()
        }),
    decreases chunks.len(),
{
    if chunks.len() > 0 {
        each_mode_change_is_found_once(chunks.drop_last(), chunk);
        mode_changes_are_seen_across_chunks(model::concat(chunks.drop_last()), chunks.last());
    }
    mode_changes_are_seen_across_chunks(model::concat(chunks), chunk);
}

} // verus!
