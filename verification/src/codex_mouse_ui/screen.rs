//! The screen model: what the terminal displays and which modes are set.
use vstd::prelude::*;

use crate::views;

verus! {

/// Which mouse events the child asked for.
#[derive(Debug, Clone, Copy, PartialEq, Eq, Structural)]
pub enum MouseMode {
    Off,
    Press,
    PressRelease,
    ButtonMotion,
    AnyMotion,
}

/// The encoding in which the child asked for mouse events.
#[derive(Debug, Clone, Copy, PartialEq, Eq, Structural)]
pub enum MouseEncoding {
    Default,
    Utf8,
    Sgr,
}

/// What a screen was told.
pub enum ScreenOp {
    /// It was opened with this size.
    Open { rows: u16, cols: u16 },
    /// It was resized.
    Resize { rows: u16, cols: u16 },
    /// It was fed output of the child.
    Feed(Seq<u8>),
}

/// A `vt100` parser, which is not visible to proofs. What it was told, in
/// order, is `screen_ops`; what it shows is a function of that.
#[verifier::external_body]
pub struct Screen {
    parser: vt100::Parser,
}

/// What `screen` was told, in order.
pub uninterp spec fn screen_ops(screen: Screen) -> Seq<ScreenOp>;

/// The text of each row that a screen shows.
pub uninterp spec fn shown_rows(ops: Seq<ScreenOp>) -> Seq<Seq<char>>;

/// The mouse protocol that the child has set.
pub uninterp spec fn shown_mouse_mode(ops: Seq<ScreenOp>) -> MouseMode;

/// The encoding of mouse events that the child has set.
pub uninterp spec fn shown_mouse_encoding(ops: Seq<ScreenOp>) -> MouseEncoding;

/// Whether the alternate screen is in use.
pub uninterp spec fn shown_alternate_screen(ops: Seq<ScreenOp>) -> bool;

/// Whether the cursor keys are in application mode.
pub uninterp spec fn shown_application_cursor(ops: Seq<ScreenOp>) -> bool;

/// Whether pastes are bracketed.
pub uninterp spec fn shown_bracketed_paste(ops: Seq<ScreenOp>) -> bool;

impl Screen {
    /// `vt100::Parser::new`, without scrollback: a screen of the given size,
    /// which was told nothing else.
    #[verifier::external_body]
    pub(crate) fn open(rows: u16, cols: u16) -> (screen: Self)
        requires
            rows > 0,
            cols > 0,
        ensures
            screen_ops(screen) == seq![ScreenOp::Open { rows, cols }],
    {
        Screen { parser: vt100::Parser::new(rows.try_into().unwrap(), cols.try_into().unwrap(), 0) }
    }

    /// `vt100::Screen::set_size`: tells the screen its new size.
    #[verifier::external_body]
    pub(crate) fn set_size(&mut self, rows: u16, cols: u16)
        requires
            rows > 0,
            cols > 0,
        ensures
            screen_ops(*final(self)) == screen_ops(*old(self)).push(
                ScreenOp::Resize { rows, cols },
            ),
    {
        self.parser.screen_mut().set_size(rows.try_into().unwrap(), cols.try_into().unwrap())
    }

    /// `vt100::Parser::process`: feeds the screen output of the child.
    #[verifier::external_body]
    pub(crate) fn process(&mut self, bytes: &[u8])
        ensures
            screen_ops(*final(self)) == screen_ops(*old(self)).push(ScreenOp::Feed(bytes@)),
    {
        self.parser.process(bytes)
    }

    /// `vt100::Screen::rows`: the text of each row, over its whole width.
    #[verifier::external_body]
    pub(crate) fn rows(&self) -> (rows: Vec<String>)
        ensures
            views::texts(rows@) == shown_rows(screen_ops(*self)),
    {
        let (_, cols) = self.parser.screen().size();
        self.parser.screen().rows(0, cols.get()).collect()
    }

    /// `vt100::Screen::mouse_protocol_mode`.
    #[verifier::external_body]
    pub(crate) fn mouse_mode(&self) -> (mode: MouseMode)
        ensures
            mode == shown_mouse_mode(screen_ops(*self)),
    {
        match self.parser.screen().mouse_protocol_mode() {
            vt100::MouseProtocolMode::None => MouseMode::Off,
            vt100::MouseProtocolMode::Press => MouseMode::Press,
            vt100::MouseProtocolMode::PressRelease => MouseMode::PressRelease,
            vt100::MouseProtocolMode::ButtonMotion => MouseMode::ButtonMotion,
            vt100::MouseProtocolMode::AnyMotion => MouseMode::AnyMotion,
        }
    }

    /// `vt100::Screen::mouse_protocol_encoding`.
    #[verifier::external_body]
    pub(crate) fn mouse_encoding(&self) -> (encoding: MouseEncoding)
        ensures
            encoding == shown_mouse_encoding(screen_ops(*self)),
    {
        match self.parser.screen().mouse_protocol_encoding() {
            vt100::MouseProtocolEncoding::Default => MouseEncoding::Default,
            vt100::MouseProtocolEncoding::Utf8 => MouseEncoding::Utf8,
            vt100::MouseProtocolEncoding::Sgr => MouseEncoding::Sgr,
        }
    }

    /// `vt100::Screen::alternate_screen`.
    #[verifier::external_body]
    pub(crate) fn alternate_screen(&self) -> (on: bool)
        ensures
            on == shown_alternate_screen(screen_ops(*self)),
    {
        self.parser.screen().alternate_screen()
    }

    /// `vt100::Screen::application_cursor`.
    #[verifier::external_body]
    pub(crate) fn application_cursor(&self) -> (on: bool)
        ensures
            on == shown_application_cursor(screen_ops(*self)),
    {
        self.parser.screen().application_cursor()
    }

    /// `vt100::Screen::bracketed_paste`.
    #[verifier::external_body]
    pub(crate) fn bracketed_paste(&self) -> (on: bool)
        ensures
            on == shown_bracketed_paste(screen_ops(*self)),
    {
        self.parser.screen().bracketed_paste()
    }
}

/// What a screen shows, as far as the mouse handling reads it.
#[verifier::ext_equal]
pub struct ScreenModel {
    pub lines: Seq<Seq<char>>,
    pub mouse_mode: MouseMode,
    pub mouse_encoding: MouseEncoding,
    pub alternate_screen: bool,
    pub application_cursor: bool,
    pub bracketed_paste: bool,
}

/// What a screen shows after it was told `ops`.
pub open spec fn shown(ops: Seq<ScreenOp>) -> ScreenModel {
    ScreenModel {
        lines: shown_rows(ops),
        mouse_mode: shown_mouse_mode(ops),
        mouse_encoding: shown_mouse_encoding(ops),
        alternate_screen: shown_alternate_screen(ops),
        application_cursor: shown_application_cursor(ops),
        bracketed_paste: shown_bracketed_paste(ops),
    }
}

/// What a screen shows, as plain values.
#[derive(Debug)]
pub struct ScreenSnapshot {
    pub lines: Vec<String>,
    pub mouse_mode: MouseMode,
    pub mouse_encoding: MouseEncoding,
    pub alternate_screen: bool,
    pub application_cursor: bool,
    pub bracketed_paste: bool,
}

impl View for ScreenSnapshot {
    type V = ScreenModel;

    open spec fn view(&self) -> ScreenModel {
        ScreenModel {
            lines: views::texts(self.lines@),
            mouse_mode: self.mouse_mode,
            mouse_encoding: self.mouse_encoding,
            alternate_screen: self.alternate_screen,
            application_cursor: self.application_cursor,
            bracketed_paste: self.bracketed_paste,
        }
    }
}

impl Screen {
    /// Takes down what the screen shows.
    pub fn snapshot(&self) -> (snapshot: ScreenSnapshot)
        ensures
            snapshot@ == shown(screen_ops(*self)),
    {
        ScreenSnapshot {
            lines: self.rows(),
            mouse_mode: self.mouse_mode(),
            mouse_encoding: self.mouse_encoding(),
            alternate_screen: self.alternate_screen(),
            application_cursor: self.application_cursor(),
            bracketed_paste: self.bracketed_paste(),
        }
    }
}

/// What a screen shows is what it says of each of its parts, after the same
/// things it was told.
pub proof fn every_part_is_the_screens_own(ops: Seq<ScreenOp>)
    ensures
        shown(ops).lines == shown_rows(ops),
        shown(ops).mouse_mode == shown_mouse_mode(ops),
        shown(ops).mouse_encoding == shown_mouse_encoding(ops),
        shown(ops).alternate_screen == shown_alternate_screen(ops),
        shown(ops).application_cursor == shown_application_cursor(ops),
        shown(ops).bracketed_paste == shown_bracketed_paste(ops),
{
}

} // verus!
