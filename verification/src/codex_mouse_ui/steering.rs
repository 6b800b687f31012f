//! What mouse reports do to a menu, and what becomes of other input.
use vstd::prelude::*;

use crate::bytes::{BRACKET, CR, ESC, LESS_THAN, LOWER_M, NINE, SEMICOLON, UPPER_M, ZERO};
use crate::codex_mouse_ui::menu::{menu_lookup_in, MenuLookup};
use crate::codex_mouse_ui::report::{encode_x10, parse_sgr_mouse, MouseEvent};
use crate::codex_mouse_ui::screen::{MouseEncoding, MouseMode, ScreenModel, ScreenSnapshot};
use crate::codex_mouse_ui::{menu, report};
use crate::filters::{tmux_osc_passthrough, tmux_wrap};

verus! {

/// Enables SGR any-motion mouse reporting on the outer terminal.
pub const MOUSE_ENABLE: [u8; 16] = [
    0x1b,
    0x5b,
    0x3f,
    0x31,
    0x30,
    0x30,
    0x33,
    0x68,
    0x1b,
    0x5b,
    0x3f,
    0x31,
    0x30,
    0x30,
    0x36,
    0x68,
];

/// Disables the reporting enabled by [`MOUSE_ENABLE`].
pub const MOUSE_DISABLE: [u8; 16] = [
    0x1b,
    0x5b,
    0x3f,
    0x31,
    0x30,
    0x30,
    0x36,
    0x6c,
    0x1b,
    0x5b,
    0x3f,
    0x31,
    0x30,
    0x30,
    0x33,
    0x6c,
];

/// OSC 22: switch the mouse pointer to a hand/pointer shape.
pub const POINTER_ON: [u8; 14] = [
    0x1b,
    0x5d,
    0x32,
    0x32,
    0x3b,
    0x70,
    0x6f,
    0x69,
    0x6e,
    0x74,
    0x65,
    0x72,
    0x1b,
    0x5c,
];

/// OSC 22: restore the default mouse pointer shape.
pub const POINTER_OFF: [u8; 14] = [
    0x1b,
    0x5d,
    0x32,
    0x32,
    0x3b,
    0x64,
    0x65,
    0x66,
    0x61,
    0x75,
    0x6c,
    0x74,
    0x1b,
    0x5c,
];

/// Any DECSET/DECRST touching modes 10xx (mouse protocols, alternate
/// screen, ...) starts with this prefix, `ESC [ ? 1 0`; seeing one in the
/// child's output triggers a re-assertion of our own mouse reporting.
pub const MODE_PREFIX: [u8; 5] = [0x1b, 0x5b, 0x3f, 0x31, 0x30];

/// The most bytes that are held back for a mouse report.
pub const MAX_PENDING: usize = 40;

/// The up arrow key.
pub const ARROW_UP: [u8; 3] = [0x1b, 0x5b, 0x41];

/// The down arrow key.
pub const ARROW_DOWN: [u8; 3] = [0x1b, 0x5b, 0x42];

/// The up arrow key in application mode.
pub const APP_ARROW_UP: [u8; 3] = [0x1b, 0x4f, 0x41];

/// The down arrow key in application mode.
pub const APP_ARROW_DOWN: [u8; 3] = [0x1b, 0x4f, 0x42];

/// The modes of the child whose change calls for enabling mouse reporting
/// again: the mouse protocol, its encoding and the alternate screen.
pub type Modes = (MouseMode, MouseEncoding, bool);

/// The state of the mouse handling.
#[verifier::ext_equal]
pub struct UiModel {
    /// Input that may become a mouse report.
    pub pending: Seq<u8>,
    /// The row and column of the last mouse event.
    pub last_pos: Option<(u16, u16)>,
    /// Whether the mouse pointer has the shape of a hand.
    pub pointer: bool,
    /// Whether the next release belongs to a click that a menu took.
    pub swallow_release: bool,
    /// The row of the option toward which arrows have been sent, until the
    /// child's redraw confirms it.
    pub steered_row: Option<usize>,
    /// Whether pointer shapes are wrapped for tmux.
    pub tmux_pointer: bool,
    /// The child's modes when output was last seen.
    pub prev_modes: Modes,
    /// The end of the output, which may be the start of a mode change.
    pub scan_carry: Seq<u8>,
    /// Whether mouse reporting may be on.
    pub active: bool,
}

/// A state, and what is sent to the child and to the terminal on the way to
/// it.
#[verifier::ext_equal]
pub struct Outcome {
    pub ui: UiModel,
    pub to_child: Seq<u8>,
    pub to_term: Seq<u8>,
}

/// The menu around a row of a screen, where there is one.
pub open spec fn menu_on(screen: ScreenModel, row: u16) -> Option<menu::MenuModel> {
    menu::menu_at(menu::kinds_of(screen.lines), row as int)
}

/// `arrow`, written `count` times.
pub open spec fn repeated(arrow: Seq<u8>, count: nat) -> Seq<u8>
    decreases count,
{
    if count == 0 {
        seq![]
    } else {
        repeated(arrow, (count - 1) as nat) + arrow
    }
}

/// The arrow keys that move a selection down by `moves` options, or up where
/// that is negative, in the form that the cursor key mode calls for.
pub open spec fn arrows(application_cursor: bool, moves: int) -> Seq<u8> {
    if moves < 0 {
        repeated(
            if application_cursor {
                APP_ARROW_UP@
            } else {
                ARROW_UP@
            },
            (-moves) as nat,
        )
    } else {
        repeated(
            if application_cursor {
                APP_ARROW_DOWN@
            } else {
                ARROW_DOWN@
            },
            moves as nat,
        )
    }
}

/// The index of `row` among `options`, where it is one of them.
pub open spec fn position(options: Seq<usize>, row: usize) -> Option<int>
    decreases options.len(),
{
    if options.len() == 0 {
        None
    } else if options[0] == row {
        Some(0)
    } else {
        match position(options.skip(1), row) {
            Some(at) => Some(at + 1),
            None => None,
        }
    }
}

/// The option index the child's marker is (or is about to be) on:
/// arrows already sent for a hover count as applied even before the
/// child's redraw reaches the screen model.
pub open spec fn effective_marked_idx(menu: menu::MenuModel, steered_row: Option<usize>) -> int {
    match steered_row {
        Some(row) => match position(menu.options, row) {
            Some(at) => at,
            None => menu.marked_idx,
        },
        None => menu.marked_idx,
    }
}

/// The arrow keys that bring the child's marker to the option under the mouse.
pub open spec fn steering_arrows(ui: UiModel, screen: ScreenModel, menu: menu::MenuModel) -> Seq<
    u8,
> {
    arrows(
        screen.application_cursor,
        menu.clicked_idx - effective_marked_idx(menu, ui.steered_row),
    )
}

/// Whether an event is a turn of the wheel.
pub open spec fn is_wheel(event: MouseEvent) -> bool {
    event.code & 64 != 0
}

/// Whether an event is a motion of the mouse.
pub open spec fn is_motion(event: MouseEvent) -> bool {
    event.code & 32 != 0 && !is_wheel(event)
}

/// Whether an event is a motion with no button pressed.
pub open spec fn is_hover(event: MouseEvent) -> bool {
    is_motion(event) && event.code & 3 == 3 && !event.release
}

/// Whether an event is a press of the left button, without modifiers.
pub open spec fn is_click(event: MouseEvent) -> bool {
    event.code == 0 && !event.release
}

/// Whether an event is a release of the left button.
pub open spec fn is_left_release(event: MouseEvent) -> bool {
    event.release && !is_wheel(event) && !is_motion(event) && event.code & 3 == 0
}

/// Whether the child asked for an event.
pub open spec fn is_wanted(mode: MouseMode, event: MouseEvent) -> bool {
    match mode {
        MouseMode::Off => false,
        MouseMode::Press => !event.release && !is_motion(event),
        MouseMode::PressRelease => !is_motion(event),
        MouseMode::ButtonMotion => !is_motion(event) || event.code & 3 != 3,
        MouseMode::AnyMotion => true,
    }
}

/// What the child is sent of an event that no menu takes: nothing unless it
/// asked for the event, and then in the encoding that it asked for.
pub open spec fn forwarded(screen: ScreenModel, event: MouseEvent, raw: Seq<u8>) -> Seq<u8> {
    if !is_wanted(screen.mouse_mode, event) {
        seq![]
    } else if screen.mouse_encoding == MouseEncoding::Sgr {
        raw
    } else {
        match report::x10_report(event) {
            Some(seq) => seq,
            None => seq![],
        }
    }
}

/// What the terminal is sent when the mouse is, or is not, over an option.
pub open spec fn pointer_update(ui: UiModel, clickable: bool) -> Seq<u8> {
    let shape = if clickable {
        POINTER_ON@
    } else {
        POINTER_OFF@
    };
    if clickable == ui.pointer {
        seq![]
    } else if ui.tmux_pointer {
        tmux_osc_passthrough::tmux_wrapped(shape)
    } else {
        shape
    }
}

/// What a mouse event does. `raw` is the report that it was read from.
pub open spec fn event_step(ui: UiModel, screen: ScreenModel, event: MouseEvent, raw: Seq<u8>)
    -> Outcome {
    let found = menu_on(screen, event.row);
    let to_term = pointer_update(ui, found is Some);
    let seen = UiModel {
        last_pos: Some((event.row, event.col)),
        pointer: found is Some,
        ..ui
    };
    if is_hover(event) && found is Some {
        let target = found->0.options[found->0.clicked_idx];
        if found->0.marked_idx == found->0.clicked_idx {
            // The child's marker has caught up with the mouse.
            Outcome { ui: UiModel { steered_row: None, ..seen }, to_child: seq![], to_term }
        } else if ui.steered_row == Some(target) {
            Outcome { ui: seen, to_child: seq![], to_term }
        } else {
            Outcome {
                ui: UiModel { steered_row: Some(target), ..seen },
                to_child: steering_arrows(ui, screen, found->0),
                to_term,
            }
        }
    } else if is_click(event) && found is Some {
        Outcome {
            ui: UiModel { steered_row: None, swallow_release: true, ..seen },
            to_child: steering_arrows(ui, screen, found->0).push(CR),
            to_term,
        }
    } else if is_left_release(event) && ui.swallow_release {
        Outcome { ui: UiModel { swallow_release: false, ..seen }, to_child: seq![], to_term }
    } else {
        Outcome { ui: seen, to_child: forwarded(screen, event, raw), to_term }
    }
}

/// Whether `bytes` may become a mouse report: some of `ESC [ <` and then
/// digits and `;`.
pub open spec fn is_report_start(bytes: Seq<u8>) -> bool {
    &&& bytes.len() > 0 ==> bytes[0] == ESC
    &&& bytes.len() > 1 ==> bytes[1] == BRACKET
    &&& bytes.len() > 2 ==> bytes[2] == LESS_THAN
    &&& forall|i: int|
        3 <= i < bytes.len() ==> crate::bytes::is_digit(#[trigger] bytes[i]) || bytes[i]
            == SEMICOLON
}

/// What one byte of input does. What may become a mouse report is held back
/// up to the limit; a report is handled as an event; everything else goes to
/// the child.
#[verifier::opaque]
pub open spec fn input_step(ui: UiModel, screen: ScreenModel, byte: u8) -> Outcome {
    let seen = ui.pending.push(byte);
    let idle = UiModel { pending: seq![], ..ui };
    if is_report_start(seen) {
        if seen.len() <= MAX_PENDING {
            Outcome { ui: UiModel { pending: seen, ..ui }, to_child: seq![], to_term: seq![] }
        } else {
            Outcome { ui: idle, to_child: seen, to_term: seq![] }
        }
    } else if ui.pending.len() >= 3 && (byte == UPPER_M || byte == LOWER_M) {
        match report::mouse_report(seen) {
            Some(event) => event_step(idle, screen, event, seen),
            None => Outcome { ui: idle, to_child: seen, to_term: seq![] },
        }
    } else if byte == ESC {
        Outcome {
            ui: UiModel { pending: seq![ESC], ..ui },
            to_child: ui.pending,
            to_term: seq![],
        }
    } else {
        Outcome { ui: idle, to_child: seen, to_term: seq![] }
    }
}

/// What input does, byte by byte.
pub open spec fn input_run(ui: UiModel, screen: ScreenModel, data: Seq<u8>) -> Outcome
    decreases data.len(),
{
    if data.len() == 0 {
        Outcome { ui, to_child: seq![], to_term: seq![] }
    } else {
        let before = input_run(ui, screen, data.drop_last());
        let last = input_step(before.ui, screen, data.last());
        Outcome {
            ui: last.ui,
            to_child: before.to_child + last.to_child,
            to_term: before.to_term + last.to_term,
        }
    }
}

/// One byte more.
proof fn lemma_one_byte_more(
    ui: UiModel,
    screen: ScreenModel,
    data: Seq<u8>,
    len: int,
    before: Outcome,
    last: Outcome,
)
    requires
        0 <= len < data.len(),
        before == input_run(ui, screen, data.take(len)),
        last == input_step(before.ui, screen, data[len]),
    ensures
        input_run(ui, screen, data.take(len + 1)) == (Outcome {
            ui: last.ui,
            to_child: before.to_child + last.to_child,
            to_term: before.to_term + last.to_term,
        }),
{
    assert(data.take(len + 1).drop_last() =~= data.take(len));
}

/// The child's modes on a screen.
pub open spec fn modes_on(screen: ScreenModel) -> Modes {
    (screen.mouse_mode, screen.mouse_encoding, screen.alternate_screen)
}

/// The last bytes of `bytes`, in which a mode change may start.
pub open spec fn carried(bytes: Seq<u8>) -> Seq<u8> {
    if bytes.len() < MODE_PREFIX@.len() {
        bytes
    } else {
        bytes.skip(bytes.len() - MODE_PREFIX@.len() + 1)
    }
}

/// Whether output calls for enabling mouse reporting again.
pub open spec fn needs_enabling(ui: UiModel, screen: ScreenModel, chunk: Seq<u8>) -> bool {
    crate::bytes::occurs(ui.scan_carry + chunk, MODE_PREFIX@) || modes_on(screen) != ui.prev_modes
}

/// What output of the child does, with `screen` showing it.
pub open spec fn output_step(ui: UiModel, screen: ScreenModel, chunk: Seq<u8>) -> Outcome {
    let enable = needs_enabling(ui, screen, chunk);
    let clickable = match ui.last_pos {
        Some((row, _)) => menu_on(screen, row) is Some,
        None => ui.pointer,
    };
    Outcome {
        ui: UiModel {
            pointer: clickable,
            prev_modes: modes_on(screen),
            scan_carry: carried(ui.scan_carry + chunk),
            active: ui.active || enable || screen.bracketed_paste,
            ..ui
        },
        to_child: seq![],
        to_term: if enable {
            MOUSE_ENABLE@
        } else {
            seq![]
        } + pointer_update(ui, clickable),
    }
}

/// The state of the mouse handling.
#[derive(Debug)]
pub struct Steering {
    pending: Vec<u8>,
    last_pos: Option<(u16, u16)>,
    pointer: bool,
    swallow_release: bool,
    steered_row: Option<usize>,
    tmux_pointer: bool,
    prev_modes: Modes,
    scan_carry: Vec<u8>,
    active: bool,
}

impl View for Steering {
    type V = UiModel;

    closed spec fn view(&self) -> UiModel {
        UiModel {
            pending: self.pending@,
            last_pos: self.last_pos,
            pointer: self.pointer,
            swallow_release: self.swallow_release,
            steered_row: self.steered_row,
            tmux_pointer: self.tmux_pointer,
            prev_modes: self.prev_modes,
            scan_carry: self.scan_carry@,
            active: self.active,
        }
    }
}

/// The state before anything has been seen.
pub open spec fn initial_ui() -> UiModel {
    UiModel {
        pending: seq![],
        last_pos: None,
        pointer: false,
        swallow_release: false,
        steered_row: None,
        tmux_pointer: false,
        prev_modes: (MouseMode::Off, MouseEncoding::Default, false),
        scan_carry: seq![],
        active: false,
    }
}

fn find_position(options: &[usize], row: usize) -> (at: Option<usize>)
    ensures
        match position(options@, row) {
            Some(expected) => at is Some && at->0 == expected && expected < options@.len(),
            None => at is None,
        },
{
    let mut i: usize = 0;
    assert(options@.skip(0) =~= options@);
    while i < options.len()
        invariant
            i <= options@.len(),
            position(options@, row) == match position(options@.skip(i as int), row) {
                Some(at) => Some(at + i),
                None => None,
            },
        decreases options@.len() - i,
    {
        assert(options@.skip(i as int).skip(1) =~= options@.skip(i + 1));
        if options[i] == row {
            return Some(i);
        }
        i += 1;
    }
    None
}

fn push_repeated(arrow: &[u8], count: usize, out: &mut Vec<u8>)
    ensures
        final(out)@ == old(out)@ + repeated(arrow@, count as nat),
{
    let mut i: usize = 0;
    assert(out@ =~= old(out)@ + repeated(arrow@, 0));
    while i < count
        invariant
            i <= count,
            out@ == old(out)@ + repeated(arrow@, i as nat),
        decreases count - i,
    {
        out.extend_from_slice(arrow);
        assert(out@ =~= old(out)@ + repeated(arrow@, (i + 1) as nat));
        i += 1;
    }
}

/// Sends the arrow keys that move a selection from one option to another.
pub fn push_arrows(application_cursor: bool, from: usize, to: usize, to_child: &mut Vec<u8>)
    ensures
        final(to_child)@ == old(to_child)@ + arrows(application_cursor, to - from),
{
    if to < from {
        if application_cursor {
            push_repeated(&APP_ARROW_UP, from - to, to_child);
        } else {
            push_repeated(&ARROW_UP, from - to, to_child);
        }
    } else {
        if application_cursor {
            push_repeated(&APP_ARROW_DOWN, to - from, to_child);
        } else {
            push_repeated(&ARROW_DOWN, to - from, to_child);
        }
    }
}

/// What the child is sent of an event that no menu takes.
pub fn forward(screen: &ScreenSnapshot, ev: &MouseEvent, raw: &[u8], to_child: &mut Vec<u8>)
    ensures
        final(to_child)@ == old(to_child)@ + forwarded(screen@, *ev, raw@),
{
    let wheel: bool = ev.code & 64 != 0;
    let motion: bool = ev.code & 32 != 0 && !wheel;
    let button: u16 = ev.code & 3;
    let allowed: bool = match screen.mouse_mode {
        MouseMode::Off => false,
        MouseMode::Press => !ev.release && !motion,
        MouseMode::PressRelease => !motion,
        MouseMode::ButtonMotion => !motion || button != 3,
        MouseMode::AnyMotion => true,
    };
    if allowed {
        match screen.mouse_encoding {
            MouseEncoding::Sgr => to_child.extend_from_slice(raw),
            MouseEncoding::Default | MouseEncoding::Utf8 => {
                if let Some(seq) = encode_x10(ev) {
                    to_child.extend_from_slice(&seq);
                }
            },
        }
    }
    assert(to_child@ =~= old(to_child)@ + forwarded(screen@, *ev, raw@));
}

impl Steering {
    /// The state before anything has been seen.
    pub fn new() -> (steering: Self)
        ensures
            steering@ == initial_ui(),
    {
        let steering = Steering {
            pending: Vec::new(),
            last_pos: None,
            pointer: false,
            swallow_release: false,
            steered_row: None,
            tmux_pointer: false,
            prev_modes: (MouseMode::Off, MouseEncoding::Default, false),
            scan_carry: Vec::new(),
            active: false,
        };
        assert(steering@ =~= initial_ui());
        steering
    }

    /// Chooses whether pointer shapes are wrapped for tmux.
    pub fn set_tmux_pointer(&mut self, on: bool)
        ensures
            final(self)@ == (UiModel { tmux_pointer: on, ..old(self)@ }),
    {
        self.tmux_pointer = on;
    }

    /// Whether mouse reporting may be on.
    pub fn is_active(&self) -> (yes: bool)
        ensures
            yes == self@.active,
    {
        self.active
    }

    fn set_pointer(&mut self, clickable: bool, out: &mut Vec<u8>)
        ensures
            final(self)@ == (UiModel { pointer: clickable, ..old(self)@ }),
            final(out)@ == old(out)@ + pointer_update(old(self)@, clickable),
    {
        if clickable != self.pointer {
            self.pointer = clickable;
            let shape = if clickable {
                POINTER_ON
            } else {
                POINTER_OFF
            };
            if self.tmux_pointer {
                let wrapped = tmux_wrap(&shape);
                out.extend_from_slice(&wrapped);
            } else {
                out.extend_from_slice(&shape);
            }
        }
        assert(out@ =~= old(out)@ + pointer_update(old(self)@, clickable));
    }

    fn effective_marked(&self, lookup: &MenuLookup) -> (at: usize)
        ensures
            at == effective_marked_idx(lookup@, self@.steered_row),
    {
        match self.steered_row {
            Some(row) => match find_position(&lookup.options, row) {
                Some(at) => at,
                None => lookup.marked_idx,
            },
            None => lookup.marked_idx,
        }
    }

    /// Handles a mouse event that was read from the report `raw`, on the given
    /// screen.
    pub fn handle_event(
        &mut self,
        screen: &ScreenSnapshot,
        ev: &MouseEvent,
        raw: &[u8],
        to_child: &mut Vec<u8>,
        to_term: &mut Vec<u8>,
    )
        ensures
            ({
                let expected = event_step(old(self)@, screen@, *ev, raw@);
                &&& final(self)@ == expected.ui
                &&& final(to_child)@ == old(to_child)@ + expected.to_child
                &&& final(to_term)@ == old(to_term)@ + expected.to_term
            }),
    {
        let ghost sent = to_child@;
        assert(sent + Seq::<u8>::empty() =~= sent);
        let lookup = menu_lookup_in(&screen.lines, ev.row as usize);
        self.last_pos = Some((ev.row, ev.col));
        self.set_pointer(lookup.is_some(), to_term);

        let wheel: bool = ev.code & 64 != 0;
        let motion: bool = ev.code & 32 != 0 && !wheel;
        let button: u16 = ev.code & 3;
        if let Some(found) = &lookup {
            proof {
                assert(menu::is_menu(
                    menu::kinds_of(screen@.lines),
                    ev.row as int,
                    found@,
                ));
            }
            // Hover: steer the child's own selection to the hovered option.
            if motion && button == 3 && !ev.release {
                let target: usize = found.options[found.clicked_idx];
                if found.marked_idx == found.clicked_idx {
                    // The child's marker has caught up with the mouse.
                    self.steered_row = None;
                } else if self.steered_row != Some(target) {
                    let marked: usize = self.effective_marked(found);
                    push_arrows(screen.application_cursor, marked, found.clicked_idx, to_child);
                    self.steered_row = Some(target);
                }
                return;
            }
            // Plain left-button press on an option: confirm it.  Hover has
            // normally aligned the selection already; send any remaining
            // moves in case it has not.
            if !ev.release && ev.code == 0 {
                let marked: usize = self.effective_marked(found);
                push_arrows(screen.application_cursor, marked, found.clicked_idx, to_child);
                to_child.push(CR);
                self.steered_row = None;
                self.swallow_release = true;
                assert(to_child@ =~= sent + event_step(old(self)@, screen@, *ev, raw@).to_child);
                return;
            }
        }
        // Swallow the release paired with a click we consumed.
        if ev.release && !wheel && !motion && button == 0 && self.swallow_release {
            self.swallow_release = false;
            return;
        }
        forward(screen, ev, raw, to_child);
    }

    fn step(
        &mut self,
        screen: &ScreenSnapshot,
        byte: u8,
        to_child: &mut Vec<u8>,
        to_term: &mut Vec<u8>,
    )
        ensures
            ({
                let expected = input_step(old(self)@, screen@, byte);
                &&& final(self)@ == expected.ui
                &&& final(to_child)@ == old(to_child)@ + expected.to_child
                &&& final(to_term)@ == old(to_term)@ + expected.to_term
            }),
    {
        proof {
            reveal(input_step);
        }
        let ghost held = self.pending@;
        let ghost sent = to_child@;
        assert(sent + Seq::<u8>::empty() =~= sent);
        assert(to_term@ + Seq::<u8>::empty() =~= to_term@);
        self.pending.push(byte);
        if may_become_report(&self.pending) {
            if self.pending.len() > MAX_PENDING {
                to_child.append(&mut self.pending);
            }
        } else if self.pending.len() >= 4 && (byte == UPPER_M || byte == LOWER_M) {
            let mut seq: Vec<u8> = Vec::new();
            std::mem::swap(&mut seq, &mut self.pending);
            match parse_sgr_mouse(&seq) {
                Some(ev) => self.handle_event(screen, &ev, &seq, to_child, to_term),
                None => to_child.append(&mut seq),
            }
        } else if byte == ESC {
            // Not a report, but the next one may start here.
            self.pending.truncate(self.pending.len() - 1);
            assert(self.pending@ =~= held);
            to_child.append(&mut self.pending);
            self.pending.push(ESC);
            assert(self.pending@ =~= seq![ESC]);
        } else {
            to_child.append(&mut self.pending);
        }
    }

    /// Handles input, with the given screen on display.
    pub fn take_input(
        &mut self,
        screen: &ScreenSnapshot,
        chunk: &[u8],
        to_child: &mut Vec<u8>,
        to_term: &mut Vec<u8>,
    )
        ensures
            ({
                let expected = input_run(old(self)@, screen@, chunk@);
                &&& final(self)@ == expected.ui
                &&& final(to_child)@ == old(to_child)@ + expected.to_child
                &&& final(to_term)@ == old(to_term)@ + expected.to_term
            }),
    {
        let mut i: usize = 0;
        proof {
            assert(chunk@.take(0) =~= seq![]);
            assert(to_child@ + Seq::<u8>::empty() =~= to_child@);
            assert(to_term@ + Seq::<u8>::empty() =~= to_term@);
        }
        while i < chunk.len()
            invariant
                i <= chunk@.len(),
                ({
                    let expected = input_run(old(self)@, screen@, chunk@.take(i as int));
                    &&& self@ == expected.ui
                    &&& to_child@ == old(to_child)@ + expected.to_child
                    &&& to_term@ == old(to_term)@ + expected.to_term
                }),
            decreases chunk@.len() - i,
        {
            let ghost before = input_run(old(self)@, screen@, chunk@.take(i as int));
            let ghost last = input_step(before.ui, screen@, chunk@[i as int]);
            self.step(screen, chunk[i], to_child, to_term);
            proof {
                lemma_one_byte_more(old(self)@, screen@, chunk@, i as int, before, last);
                assert((old(to_child)@ + before.to_child) + last.to_child =~= old(to_child)@ + (
                before.to_child + last.to_child));
                assert((old(to_term)@ + before.to_term) + last.to_term =~= old(to_term)@ + (
                before.to_term + last.to_term));
            }
            i += 1;
        }
        assert(chunk@.take(i as int) =~= chunk@);
    }

    /// Returns the input that is held back, which will not become a report.
    pub fn finish_input(&mut self) -> (rest: Vec<u8>)
        ensures
            rest@ == old(self)@.pending,
            final(self)@ == (UiModel { pending: seq![], ..old(self)@ }),
    {
        let mut rest: Vec<u8> = Vec::new();
        rest.append(&mut self.pending);
        rest
    }

    /// Handles output of the child, with the given screen displaying it.
    /// Returns the bytes to write to the terminal behind it.
    pub fn take_output(&mut self, screen: &ScreenSnapshot, chunk: &[u8]) -> (out: Vec<u8>)
        ensures
            ({
                let expected = output_step(old(self)@, screen@, chunk@);
                &&& final(self)@ == expected.ui
                &&& out@ == expected.to_term
            }),
    {
        let mut out: Vec<u8> = Vec::new();
        let modes: Modes = (screen.mouse_mode, screen.mouse_encoding, screen.alternate_screen);
        let changed: bool = modes.0 != self.prev_modes.0 || modes.1 != self.prev_modes.1 || modes.2
            != self.prev_modes.2;
        if self.scan_mode_prefix(chunk) || changed {
            out.extend_from_slice(&MOUSE_ENABLE);
            self.active = true;
        }
        if screen.bracketed_paste {
            self.active = true;
        }
        self.prev_modes = modes;
        // The content under a stationary mouse may have changed.
        if let Some((row, _)) = self.last_pos {
            let clickable = menu_lookup_in(&screen.lines, row as usize).is_some();
            self.set_pointer(clickable, &mut out);
        }
        assert(out@ =~= output_step(old(self)@, screen@, chunk@).to_term);
        out
    }

    /// Reports whether `chunk` (or its boundary with the previous
    /// chunk) contains a `CSI ? 10..` mode change.
    pub fn scan_mode_prefix(&mut self, chunk: &[u8]) -> (found: bool)
        ensures
            found == crate::bytes::occurs(old(self)@.scan_carry + chunk@, MODE_PREFIX@),
            final(self)@ == (UiModel {
                scan_carry: carried(old(self)@.scan_carry + chunk@),
                ..old(self)@
            }),
    {
        let mut boundary: Vec<u8> = Vec::new();
        boundary.append(&mut self.scan_carry);
        boundary.extend_from_slice(chunk);
        let found: bool = memchr::memmem::find(&boundary, &MODE_PREFIX).is_some();
        proof {
            assert(boundary@ =~= old(self)@.scan_carry + chunk@);
        }
        if boundary.len() < MODE_PREFIX.len() {
            self.scan_carry = boundary;
        } else {
            self.scan_carry = boundary.split_off(boundary.len() - (MODE_PREFIX.len() - 1));
        }
        assert(self.scan_carry@ =~= carried(old(self)@.scan_carry + chunk@));
        found
    }
}

/// Whether `bytes` may become a mouse report.
fn may_become_report(bytes: &[u8]) -> (yes: bool)
    ensures
        yes == is_report_start(bytes@),
{
    let len: usize = bytes.len();
    if (len > 0 && bytes[0] != ESC) || (len > 1 && bytes[1] != BRACKET) || (len > 2 && bytes[2]
        != LESS_THAN) {
        return false;
    }
    let mut i: usize = 3;
    while i < len
        invariant
            len == bytes@.len(),
            3 <= i,
            forall|j: int|
                3 <= j < i && j < len ==> crate::bytes::is_digit(#[trigger] bytes@[j]) || bytes@[j]
                    == SEMICOLON,
        decreases len - i,
    {
        if (bytes[i] < ZERO || bytes[i] > NINE) && bytes[i] != SEMICOLON {
            assert(!crate::bytes::is_digit(bytes@[i as int]));
            return false;
        }
        i += 1;
    }
    true
}

} // verus!
