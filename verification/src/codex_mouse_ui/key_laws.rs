//! What the child and the terminal are sent for mouse events.
use vstd::prelude::*;

use crate::bytes;
use crate::codex_mouse_ui::report::{self, MouseEvent};
use crate::codex_mouse_ui::screen::{MouseEncoding, MouseMode, ScreenModel};
use crate::codex_mouse_ui::steering::{self, UiModel};
use crate::codex_mouse_ui::{laws, menu, report_laws};
use crate::filters::{pieces, tmux_osc_passthrough};

verus! {

/// The key that moves a marker up or down: `ESC [ A` and `ESC [ B`, or
/// `ESC O A` and `ESC O B` where the cursor keys are in application mode.
pub open spec fn arrow_key(application_cursor: bool, up: bool) -> Seq<u8> {
    seq![
        0x1bu8,
        if application_cursor {
            'O' as u8
        } else {
            '[' as u8
        },
        if up {
            'A' as u8
        } else {
            'B' as u8
        },
    ]
}

/// Where a child that moves its marker by one option for each arrow key has it
/// after `keys`; `None` where they are anything but arrow keys.
pub open spec fn marker_after(application_cursor: bool, keys: Seq<u8>, marker: int) -> Option<int>
    decreases keys.len(),
{
    if keys.len() == 0 {
        Some(marker)
    } else if keys.len() < 3 {
        None
    } else if keys.take(3) == arrow_key(application_cursor, true) {
        marker_after(application_cursor, keys.skip(3), marker - 1)
    } else if keys.take(3) == arrow_key(application_cursor, false) {
        marker_after(application_cursor, keys.skip(3), marker + 1)
    } else {
        None
    }
}

/// The number without its sign.
pub open spec fn size_of(moves: int) -> int {
    if moves < 0 {
        -moves
    } else {
        moves
    }
}

/// One key in front, and the others behind it.
proof fn lemma_repeated_first(key: Seq<u8>, count: nat)
    requires
        count > 0,
    ensures
        steering::repeated(key, count) == key + steering::repeated(key, (count - 1) as nat),
    decreases count,
{
    let fewer = (count - 1) as nat;
    if fewer == 0 {
        assert(steering::repeated(key, fewer) =~= seq![]);
        assert(steering::repeated(key, count) =~= key + steering::repeated(key, fewer));
    } else {
        lemma_repeated_first(key, fewer);
        let rest = steering::repeated(key, (fewer - 1) as nat);
        assert((key + rest) + key =~= key + (rest + key));
    }
}

proof fn lemma_repeated_len(key: Seq<u8>, count: nat)
    requires
        key.len() == 3,
    ensures
        steering::repeated(key, count).len() == 3 * count,
    decreases count,
{
    if count > 0 {
        lemma_repeated_len(key, (count - 1) as nat);
    }
}

proof fn lemma_repeated_block(key: Seq<u8>, count: nat, i: int)
    requires
        key.len() == 3,
        0 <= i < count,
    ensures
        block(steering::repeated(key, count), i) == key,
    decreases count,
{
    let fewer = (count - 1) as nat;
    let before = steering::repeated(key, fewer);
    let keys = steering::repeated(key, count);
    lemma_repeated_len(key, fewer);
    assert(keys == before + key);
    if i < fewer {
        lemma_repeated_block(key, fewer, i);
        assert(block(keys, i) =~= block(before, i));
    } else {
        assert(block(keys, i) =~= key);
    }
}

/// The `i`th three bytes.
pub open spec fn block(keys: Seq<u8>, i: int) -> Seq<u8> {
    keys.subrange(3 * i, 3 * i + 3)
}

/// To move a selection by some options takes exactly as many arrow keys, all of
/// them the key of the direction and of the cursor key mode.
pub proof fn one_key_for_each_option(application_cursor: bool, moves: int)
    ensures
        ({
            let keys = steering::arrows(application_cursor, moves);
            &&& keys.len() == 3 * size_of(moves)
            &&& forall|i: int|
                0 <= i < size_of(moves) ==> #[trigger] block(keys, i) == arrow_key(
                    application_cursor,
                    moves < 0,
                )
        }),
{
    let key = arrow_key(application_cursor, moves < 0);
    let keys = steering::arrows(application_cursor, moves);
    let count = size_of(moves) as nat;
    lemma_key_bytes();
    assert(keys == steering::repeated(key, count));
    lemma_repeated_len(key, count);
    assert forall|i: int| 0 <= i < size_of(moves) implies #[trigger] block(keys, i) == key by {
        lemma_repeated_block(key, count, i);
    }
}

proof fn lemma_key_bytes()
    ensures
        steering::ARROW_UP@ == arrow_key(false, true),
        steering::ARROW_DOWN@ == arrow_key(false, false),
        steering::APP_ARROW_UP@ == arrow_key(true, true),
        steering::APP_ARROW_DOWN@ == arrow_key(true, false),
{
    assert(steering::ARROW_UP@ =~= arrow_key(false, true));
    assert(steering::ARROW_DOWN@ =~= arrow_key(false, false));
    assert(steering::APP_ARROW_UP@ =~= arrow_key(true, true));
    assert(steering::APP_ARROW_DOWN@ =~= arrow_key(true, false));
}

/// One key, and others behind it.
proof fn lemma_marker_first(application_cursor: bool, up: bool, rest: Seq<u8>, marker: int)
    ensures
        marker_after(application_cursor, arrow_key(application_cursor, up) + rest, marker)
            == marker_after(
            application_cursor,
            rest,
            if up {
                marker - 1
            } else {
                marker + 1
            },
        ),
{
    let key = arrow_key(application_cursor, up);
    let keys = key + rest;
    assert(keys.take(3) =~= key);
    assert(keys.skip(3) =~= rest);
    assert(arrow_key(application_cursor, true)[2] != arrow_key(application_cursor, false)[2]);
}

proof fn lemma_marker(application_cursor: bool, up: bool, count: nat, marker: int)
    ensures
        marker_after(
            application_cursor,
            steering::repeated(arrow_key(application_cursor, up), count),
            marker,
        ) == Some(
            if up {
                marker - count
            } else {
                marker + count
            },
        ),
    decreases count,
{
    let key = arrow_key(application_cursor, up);
    if count > 0 {
        let fewer = (count - 1) as nat;
        let next = if up {
            marker - 1
        } else {
            marker + 1
        };
        lemma_repeated_first(key, count);
        lemma_marker_first(application_cursor, up, steering::repeated(key, fewer), marker);
        lemma_marker(application_cursor, up, fewer, next);
    } else {
        assert(steering::repeated(key, count) =~= seq![]);
    }
}

/// The arrow keys for a move bring a marker as far as the move says.
pub proof fn arrow_keys_move_the_marker(application_cursor: bool, moves: int, marker: int)
    ensures
        marker_after(application_cursor, steering::arrows(application_cursor, moves), marker)
            == Some(marker + moves),
{
    lemma_key_bytes();
    lemma_marker(application_cursor, moves < 0, size_of(moves) as nat, marker);
}

/// Whether the child's marker is on the option `at`, or will be when it has
/// taken the keys that were sent to it.
pub open spec fn is_marked(ui: UiModel, options: Seq<usize>, marked: int, at: int) -> bool {
    &&& 0 <= at < options.len()
    &&& {
        ||| ui.steered_row == Some(options[at])
        ||| at == marked && forall|i: int|
            0 <= i < options.len() ==> ui.steered_row != Some(#[trigger] options[i])
    }
}

proof fn lemma_no_position(options: Seq<usize>, row: usize)
    requires
        forall|i: int| 0 <= i < options.len() ==> row != #[trigger] options[i],
    ensures
        steering::position(options, row) is None,
    decreases options.len(),
{
    if options.len() > 0 {
        let rest = options.skip(1);
        assert forall|i: int| 0 <= i < rest.len() implies row != #[trigger] rest[i] by {
            assert(rest[i] == options[i + 1]);
        }
        assert(row != options[0]);
        lemma_no_position(rest, row);
    }
}

proof fn lemma_marked(
    kinds: Seq<menu::LineKind>,
    row: int,
    found: menu::MenuModel,
    ui: UiModel,
    at: int,
)
    requires
        menu::is_menu(kinds, row, found),
        is_marked(ui, found.options, found.marked_idx, at),
    ensures
        steering::effective_marked_idx(found, ui.steered_row) == at,
{
    if ui.steered_row == Some(found.options[at]) {
        assert forall|i: int| 0 <= i < at implies found.options[i] != found.options[at] by {
            menu::lemma_chain_increases(kinds, found.options, i, at);
        }
        laws::lemma_position(found.options, found.options[at], at);
    } else if ui.steered_row is Some {
        lemma_no_position(found.options, ui.steered_row->0);
    }
}

/// A click on an option confirms that option, wherever the marker is: the child
/// is sent the arrow keys that bring its marker there, and then Enter. The
/// release that belongs to the click will be swallowed.
pub proof fn clicks_confirm_the_option(
    ui: UiModel,
    screen: ScreenModel,
    event: MouseEvent,
    raw: Seq<u8>,
    at: int,
)
    requires
        event.code == 0,
        !event.release,
        steering::menu_on(screen, event.row) is Some,
        is_marked(
            ui,
            steering::menu_on(screen, event.row)->0.options,
            steering::menu_on(screen, event.row)->0.marked_idx,
            at,
        ),
    ensures
        ({
            let found = steering::menu_on(screen, event.row)->0;
            let after = steering::event_step(ui, screen, event, raw);
            &&& after.to_child.len() > 0
            &&& after.to_child.last() == 0x0d
            &&& after.to_child.len() == 3 * size_of(found.clicked_idx - at) + 1
            &&& marker_after(screen.application_cursor, after.to_child.drop_last(), at) == Some(
                found.clicked_idx,
            )
            &&& after.ui == (UiModel {
                last_pos: Some((event.row, event.col)),
                pointer: true,
                steered_row: None,
                swallow_release: true,
                ..ui
            })
        }),
{
    let found = steering::menu_on(screen, event.row)->0;
    let kinds = menu::kinds_of(screen.lines);
    assert(menu::is_menu(kinds, event.row as int, found));
    lemma_marked(kinds, event.row as int, found, ui, at);
    assert(0u16 & 32 == 0) by (bit_vector);
    let moves = found.clicked_idx - at;
    arrow_keys_move_the_marker(screen.application_cursor, moves, at);
    one_key_for_each_option(screen.application_cursor, moves);
    let keys = steering::arrows(screen.application_cursor, moves);
    assert(keys.push(bytes::CR).drop_last() =~= keys);
}

/// Moving the mouse over an option, with no button pressed, moves the child's
/// marker there and remembers so. Nothing is sent where the marker is there
/// already or is on its way.
pub proof fn hovers_move_the_marker(
    ui: UiModel,
    screen: ScreenModel,
    event: MouseEvent,
    raw: Seq<u8>,
    at: int,
)
    requires
        event.code & 32 != 0,
        event.code & 64 == 0,
        event.code & 3 == 3,
        !event.release,
        steering::menu_on(screen, event.row) is Some,
        is_marked(
            ui,
            steering::menu_on(screen, event.row)->0.options,
            steering::menu_on(screen, event.row)->0.marked_idx,
            at,
        ),
    ensures
        ({
            let found = steering::menu_on(screen, event.row)->0;
            let target = found.options[found.clicked_idx];
            let after = steering::event_step(ui, screen, event, raw);
            let seen = UiModel {
                last_pos: Some((event.row, event.col)),
                pointer: true,
                ..ui
            };
            if found.marked_idx == found.clicked_idx {
                &&& after.to_child == Seq::<u8>::empty()
                &&& after.ui == (UiModel { steered_row: None, ..seen })
            } else {
                &&& marker_after(screen.application_cursor, after.to_child, at) == Some(
                    found.clicked_idx,
                )
                &&& after.to_child.len() == 3 * size_of(found.clicked_idx - at)
                &&& after.ui == (UiModel { steered_row: Some(target), ..seen })
            }
        }),
{
    let found = steering::menu_on(screen, event.row)->0;
    let kinds = menu::kinds_of(screen.lines);
    assert(menu::is_menu(kinds, event.row as int, found));
    lemma_marked(kinds, event.row as int, found, ui, at);
    let moves = found.clicked_idx - at;
    arrow_keys_move_the_marker(screen.application_cursor, moves, at);
    one_key_for_each_option(screen.application_cursor, moves);
    let target = found.options[found.clicked_idx];
    if ui.steered_row == Some(target) && found.marked_idx != found.clicked_idx {
        assert(at == found.clicked_idx) by {
            let other = found.clicked_idx;
            if at < other {
                menu::lemma_chain_increases(kinds, found.options, at, other);
            } else if other < at {
                menu::lemma_chain_increases(kinds, found.options, other, at);
            }
        }
        assert(steering::event_step(ui, screen, event, raw).to_child =~= seq![]);
    }
}

/// A whole click, as it arrives in the input: whatever the column, the report
/// of a press of the left button over an option sends the child the arrow keys
/// to that option and Enter, and nothing of the report.
pub proof fn clicks_in_the_input_confirm_the_option(
    ui: UiModel,
    screen: ScreenModel,
    col: nat,
    row: nat,
    at: int,
)
    requires
        ui.pending == Seq::<u8>::empty(),
        1 <= col <= 65535,
        1 <= row <= 65535,
        steering::menu_on(screen, (row - 1) as u16) is Some,
        is_marked(
            ui,
            steering::menu_on(screen, (row - 1) as u16)->0.options,
            steering::menu_on(screen, (row - 1) as u16)->0.marked_idx,
            at,
        ),
    ensures
        ({
            let found = steering::menu_on(screen, (row - 1) as u16)->0;
            let after = steering::input_run(
                ui,
                screen,
                report_laws::written_report(0, col, row, false),
            );
            &&& after.to_child.len() > 0
            &&& after.to_child.last() == 0x0d
            &&& marker_after(screen.application_cursor, after.to_child.drop_last(), at) == Some(
                found.clicked_idx,
            )
            &&& after.ui.pending == Seq::<u8>::empty()
        }),
{
    let seq = report_laws::written_report(0, col, row, false);
    let event = MouseEvent {
        code: 0,
        col: (col - 1) as u16,
        row: (row - 1) as u16,
        release: false,
    };
    report_laws::reports_are_handled(ui, screen, 0, col, row, false);
    clicks_confirm_the_option(ui, screen, event, seq, at);
}

/// Whether a menu takes an event: a press of the left button, or a motion with
/// no button pressed, over one of its options.
pub open spec fn is_for_a_menu(screen: ScreenModel, event: MouseEvent) -> bool {
    &&& steering::menu_on(screen, event.row) is Some
    &&& !event.release
    &&& event.code == 0 || event.code & 32 != 0 && event.code & 64 == 0 && event.code & 3 == 3
}

/// Whether an event is the release of the left button that belongs to a click
/// on an option.
pub open spec fn ends_a_menu_click(ui: UiModel, event: MouseEvent) -> bool {
    &&& ui.swallow_release
    &&& event.release
    &&& event.code & 64 == 0
    &&& event.code & 32 == 0
    &&& event.code & 3 == 0
}

/// An event that no menu takes reaches a child that asked for it: presses and
/// the wheel with every mode, releases with all but the first, motion with a
/// button pressed with the last two, and any motion with the last. It reaches
/// the child as it came, or re-encoded where the child did not ask for SGR
/// reports. A child that set no mode is sent nothing.
pub proof fn other_events_reach_the_child(
    ui: UiModel,
    screen: ScreenModel,
    event: MouseEvent,
    raw: Seq<u8>,
)
    requires
        !is_for_a_menu(screen, event),
        !ends_a_menu_click(ui, event),
    ensures
        ({
            let after = steering::event_step(ui, screen, event, raw);
            let moves = event.code & 32 != 0 && event.code & 64 == 0;
            let held = event.code & 3 != 3;
            let sent = if screen.mouse_encoding == MouseEncoding::Sgr {
                raw
            } else if report::x10_report(event) is Some {
                report::x10_report(event)->0
            } else {
                seq![]
            };
            let mode = screen.mouse_mode;
            let none = Seq::<u8>::empty();
            &&& mode == MouseMode::Off ==> after.to_child == none
            &&& mode == MouseMode::AnyMotion ==> after.to_child == sent
            &&& mode == MouseMode::ButtonMotion ==> after.to_child == if moves && !held {
                none
            } else {
                sent
            }
            &&& mode == MouseMode::PressRelease ==> after.to_child == if moves {
                none
            } else {
                sent
            }
            &&& mode == MouseMode::Press ==> after.to_child == if moves || event.release {
                none
            } else {
                sent
            }
            &&& after.ui == (UiModel {
                last_pos: Some((event.row, event.col)),
                pointer: steering::menu_on(screen, event.row) is Some,
                ..ui
            })
        }),
{
}

/// The release that ends a click on an option is swallowed, once.
pub proof fn menu_clicks_end_silently(
    ui: UiModel,
    screen: ScreenModel,
    event: MouseEvent,
    raw: Seq<u8>,
)
    requires
        ends_a_menu_click(ui, event),
    ensures
        steering::event_step(ui, screen, event, raw).to_child == Seq::<u8>::empty(),
        steering::event_step(ui, screen, event, raw).ui == (UiModel {
            last_pos: Some((event.row, event.col)),
            pointer: steering::menu_on(screen, event.row) is Some,
            swallow_release: false,
            ..ui
        }),
{
}

/// The OSC that gives the mouse pointer a shape.
pub open spec fn pointer_osc(name: Seq<u8>) -> Seq<u8> {
    seq![0x1bu8, ']' as u8, '2' as u8, '2' as u8, ';' as u8] + name + seq![0x1bu8, '\\' as u8]
}

/// `pointer`, the shape of a hand, or `default`.
pub open spec fn shape_name(clickable: bool) -> Seq<u8> {
    if clickable {
        seq![
            'p' as u8,
            'o' as u8,
            'i' as u8,
            'n' as u8,
            't' as u8,
            'e' as u8,
            'r' as u8,
        ]
    } else {
        seq![
            'd' as u8,
            'e' as u8,
            'f' as u8,
            'a' as u8,
            'u' as u8,
            'l' as u8,
            't' as u8,
        ]
    }
}

/// Whether `bytes` gives the pointer the shape for `clickable`: the OSC itself,
/// or in tmux a passthrough that hands on the OSC.
pub open spec fn gives_shape(bytes: Seq<u8>, tmux: bool, clickable: bool) -> bool {
    if tmux {
        &&& bytes.len() >= 7
        &&& bytes.take(7) == seq![
            0x1bu8,
            'P' as u8,
            't' as u8,
            'm' as u8,
            'u' as u8,
            'x' as u8,
            ';' as u8,
        ]
        &&& tmux_osc_passthrough::tmux_payload(bytes.skip(7)) == Some(
            pointer_osc(shape_name(clickable)),
        )
    } else {
        bytes == pointer_osc(shape_name(clickable))
    }
}

proof fn lemma_pointer_bytes(clickable: bool)
    ensures
        (if clickable {
            steering::POINTER_ON@
        } else {
            steering::POINTER_OFF@
        }) == pointer_osc(shape_name(clickable)),
{
    if clickable {
        assert(steering::POINTER_ON@ =~= pointer_osc(shape_name(true)));
    } else {
        assert(steering::POINTER_OFF@ =~= pointer_osc(shape_name(false)));
    }
}

pub proof fn lemma_pointer_update(ui: UiModel, clickable: bool)
    ensures
        if clickable == ui.pointer {
            steering::pointer_update(ui, clickable) == Seq::<u8>::empty()
        } else {
            gives_shape(steering::pointer_update(ui, clickable), ui.tmux_pointer, clickable)
        },
{
    let shape = pointer_osc(shape_name(clickable));
    lemma_pointer_bytes(clickable);
    tmux_osc_passthrough::tmux_hands_on_the_wrapped_sequence(shape);
    let start = tmux_osc_passthrough::TMUX_START@;
    assert(tmux_osc_passthrough::tmux_wrapped(shape).take(7) =~= start);
    assert(start =~= seq![
        0x1bu8,
        'P' as u8,
        't' as u8,
        'm' as u8,
        'u' as u8,
        'x' as u8,
        ';' as u8,
    ]);
}

/// With every event the pointer gets the shape of a hand where it comes over a
/// menu, and its default shape where it leaves one; the terminal is sent
/// nothing else, and nothing at all where the shape stays.
pub proof fn the_pointer_has_the_right_shape(
    ui: UiModel,
    screen: ScreenModel,
    event: MouseEvent,
    raw: Seq<u8>,
)
    ensures
        ({
            let after = steering::event_step(ui, screen, event, raw);
            let clickable = steering::menu_on(screen, event.row) is Some;
            &&& after.ui.pointer == clickable
            &&& if clickable == ui.pointer {
                after.to_term == Seq::<u8>::empty()
            } else {
                gives_shape(after.to_term, ui.tmux_pointer, clickable)
            }
        }),
{
    lemma_pointer_update(ui, steering::menu_on(screen, event.row) is Some);
}

/// `ESC [ ? 1003` and `ESC [ ? 1006`, with `h` to set and `l` to reset: reports
/// of any motion, in the SGR encoding.
pub open spec fn mouse_mode_sequence(encoding: bool, set: bool) -> Seq<u8> {
    pieces::written_csi(
        seq![
            '?' as u8,
            '1' as u8,
            '0' as u8,
            '0' as u8,
            if encoding {
                '6' as u8
            } else {
                '3' as u8
            },
        ],
        if set {
            'h' as u8
        } else {
            'l' as u8
        },
    )
}

/// Disabling resets both modes that enabling sets, in the other order.
pub proof fn disabling_undoes_enabling()
    ensures
        steering::MOUSE_ENABLE@ == mouse_mode_sequence(false, true) + mouse_mode_sequence(
            true,
            true,
        ),
        steering::MOUSE_DISABLE@ == mouse_mode_sequence(true, false) + mouse_mode_sequence(
            false,
            false,
        ),
{
    assert(steering::MOUSE_ENABLE@ =~= mouse_mode_sequence(false, true) + mouse_mode_sequence(
        true,
        true,
    ));
    assert(steering::MOUSE_DISABLE@ =~= mouse_mode_sequence(true, false) + mouse_mode_sequence(
        false,
        false,
    ));
}

/// Whether a change of a mode 10xx ends in `chunk`, which follows `before`:
/// `ESC [ ? 1 0`.
pub open spec fn changes_a_mode(before: Seq<u8>, chunk: Seq<u8>) -> bool {
    bytes::occurs(
        before + chunk,
        seq![0x1bu8, '[' as u8, '?' as u8, '1' as u8, '0' as u8],
    )
}

/// Output after which the child's modes differ, or in which it changes one,
/// makes the terminal report the mouse again. Then the pointer gets the shape
/// that fits what is under it. Nothing else is sent to the terminal, and nothing
/// to the child; what is held back of the input, the option that the marker is
/// on its way to and a release to swallow are not touched.
pub proof fn output_keeps_the_mouse_reported(ui: UiModel, screen: ScreenModel, chunk: Seq<u8>)
    ensures
        ({
            let after = steering::output_step(ui, screen, chunk);
            let changed = changes_a_mode(ui.scan_carry, chunk) || ui.prev_modes != (
                screen.mouse_mode,
                screen.mouse_encoding,
                screen.alternate_screen,
            );
            let enabling = mouse_mode_sequence(false, true) + mouse_mode_sequence(true, true);
            let rest = if changed {
                after.to_term.skip(enabling.len() as int)
            } else {
                after.to_term
            };
            &&& changed ==> enabling.is_prefix_of(after.to_term)
            &&& if after.ui.pointer == ui.pointer {
                rest == Seq::<u8>::empty()
            } else {
                gives_shape(rest, ui.tmux_pointer, after.ui.pointer)
            }
            &&& after.to_child == Seq::<u8>::empty()
            &&& after.ui.active == (ui.active || changed || screen.bracketed_paste)
            &&& after.ui == (UiModel {
                pointer: after.ui.pointer,
                prev_modes: (
                    screen.mouse_mode,
                    screen.mouse_encoding,
                    screen.alternate_screen,
                ),
                scan_carry: after.ui.scan_carry,
                active: after.ui.active,
                ..ui
            })
            &&& match ui.last_pos {
                Some((row, _)) => after.ui.pointer == (steering::menu_on(screen, row) is Some),
                None => after.ui.pointer == ui.pointer,
            }
        }),
{
    let after = steering::output_step(ui, screen, chunk);
    let enabling = mouse_mode_sequence(false, true) + mouse_mode_sequence(true, true);
    disabling_undoes_enabling();
    lemma_pointer_update(ui, after.ui.pointer);
    assert(steering::MODE_PREFIX@ =~= seq![0x1bu8, '[' as u8, '?' as u8, '1' as u8, '0' as u8]);
    let update = steering::pointer_update(ui, after.ui.pointer);
    assert(Seq::<u8>::empty() + update =~= update);
    assert((enabling + update).skip(enabling.len() as int) =~= update);
    assert(enabling =~= (enabling + update).subrange(0, enabling.len() as int));
}

} // verus!
