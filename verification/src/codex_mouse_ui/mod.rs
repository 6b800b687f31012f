//! Mouse support for Codex CLI's marker-based numbered menus.
//!
//! [`CodexMouseUi`] sits on both sides of the PTY proxy.  On the output
//! side it maintains a screen model of what the terminal
//! displays and keeps SGR any-motion mouse reporting enabled.  On the
//! input side it intercepts SGR mouse reports from the terminal:
//! hovering over a `›`/`❯`-marked numbered option steers the child's
//! own selection there with arrow keys (so the marker follows the
//! mouse) and switches the terminal's mouse pointer shape via OSC 22;
//! a click sends Enter to confirm the selection.
//!
//! Events the menu logic does not consume are forwarded to the child
//! only when the child has requested a mouse protocol of its own, in
//! the encoding it asked for.
use vstd::prelude::*;

pub mod key_laws;
pub mod laws;
pub mod menu;
pub mod menu_laws;
pub mod report;
pub mod report_laws;
pub mod screen;
pub mod steering;

pub use steering::{MOUSE_DISABLE, MOUSE_ENABLE, POINTER_OFF, POINTER_ON};

use screen::{Screen, ScreenModel, ScreenOp};
use steering::{Steering, UiModel};

verus! {

/// Bidirectional mouse handling state for one PTY session.
pub struct CodexMouseUi {
    screen: Screen,
    steering: Steering,
}

impl CodexMouseUi {
    /// What the screen model was told.
    pub closed spec fn ops(self) -> Seq<ScreenOp> {
        screen::screen_ops(self.screen)
    }

    /// What the screen model shows.
    pub open spec fn shown(self) -> ScreenModel {
        screen::shown(self.ops())
    }

    /// The state of the mouse handling.
    pub closed spec fn ui(self) -> UiModel {
        self.steering@
    }

    /// Creates a handler for a terminal of the given size.
    pub fn new(rows: u16, cols: u16) -> (mouse: Self)
        requires
            rows > 0,
            cols > 0,
        ensures
            mouse.ops() == seq![ScreenOp::Open { rows, cols }],
            mouse.ui() == steering::initial_ui(),
    {
        CodexMouseUi { screen: Screen::open(rows, cols), steering: Steering::new() }
    }

    /// Resizes the screen model (call on SIGWINCH).
    pub fn resize(&mut self, rows: u16, cols: u16)
        requires
            rows > 0,
            cols > 0,
        ensures
            final(self).ops() == old(self).ops().push(ScreenOp::Resize { rows, cols }),
            final(self).ui() == old(self).ui(),
    {
        self.screen.set_size(rows, cols);
    }

    /// Emits pointer-shape OSCs wrapped in a tmux DCS passthrough so
    /// they reach the outer terminal through tmux.
    pub fn set_tmux_pointer(&mut self, on: bool)
        ensures
            final(self).ops() == old(self).ops(),
            final(self).ui() == (UiModel { tmux_pointer: on, ..old(self).ui() }),
    {
        self.steering.set_tmux_pointer(on);
    }

    /// Whether mouse reporting may be on, so that it has to be turned off at
    /// the end.
    pub fn is_active(&self) -> (yes: bool)
        ensures
            yes == self.ui().active,
    {
        self.steering.is_active()
    }

    /// Feeds a chunk of child output (as written to the terminal) into
    /// the screen model.  Returns bytes to append to the terminal
    /// output: mouse-mode re-assertions and pointer shape updates.
    pub fn on_output(&mut self, chunk: &[u8]) -> (out: Vec<u8>)
        ensures
            final(self).ops() == old(self).ops().push(ScreenOp::Feed(chunk@)),
            ({
                let expected = steering::output_step(old(self).ui(), final(self).shown(), chunk@);
                &&& final(self).ui() == expected.ui
                &&& out@ == expected.to_term
            }),
    {
        self.screen.process(chunk);
        let snapshot = self.screen.snapshot();
        self.steering.take_output(&snapshot, chunk)
    }

    /// Feeds a chunk of terminal input.  Returns `(to_child, to_term)`:
    /// bytes to forward to the child and bytes (pointer shape updates)
    /// to write back to the terminal.
    pub fn on_input(&mut self, chunk: &[u8]) -> (out: (Vec<u8>, Vec<u8>))
        ensures
            final(self).ops() == old(self).ops(),
            ({
                let expected = steering::input_run(old(self).ui(), old(self).shown(), chunk@);
                &&& final(self).ui() == expected.ui
                &&& out.0@ == expected.to_child
                &&& out.1@ == expected.to_term
            }),
    {
        let mut to_child: Vec<u8> = Vec::new();
        let mut to_term: Vec<u8> = Vec::new();
        let snapshot = self.screen.snapshot();
        self.steering.take_input(&snapshot, chunk, &mut to_child, &mut to_term);
        proof {
            let expected = steering::input_run(old(self).ui(), old(self).shown(), chunk@);
            assert(to_child@ =~= expected.to_child);
            assert(to_term@ =~= expected.to_term);
        }
        (to_child, to_term)
    }

    /// Flushes any partially buffered input sequence (call on stdin EOF).
    pub fn finish_input(&mut self) -> (rest: Vec<u8>)
        ensures
            final(self).ops() == old(self).ops(),
            rest@ == old(self).ui().pending,
            final(self).ui() == (UiModel { pending: seq![], ..old(self).ui() }),
    {
        self.steering.finish_input()
    }
}

} // verus!
