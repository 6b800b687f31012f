use tfil::cli::Cli;
use tfil::codex_mouse_ui::{CodexMouseUi, MOUSE_ENABLE, POINTER_ON};
use tfil::filters::{tmux_wrap, Filter};
use tfil::session::CURSOR_SHOW;
use tfil::terminal_output::{closing, release, TerminalOutput, RECOVERY};

/// An output together with what was written to the terminal.
struct Terminal {
    output: TerminalOutput,
    writer: Vec<u8>,
}

impl Terminal {
    fn new(track_sequences: bool) -> Self {
        Terminal { output: TerminalOutput::new(track_sequences), writer: Vec::new() }
    }

    fn write_child(&mut self, bytes: &[u8], extra: &[u8]) {
        let released = self.output.write_child(bytes, extra);
        self.writer.extend_from_slice(bytes);
        self.writer.extend(released);
    }

    fn write_extra(&mut self, bytes: &[u8]) {
        let released = self.output.write_extra(bytes);
        self.writer.extend(released);
    }

    fn finish(mut self, bytes: &[u8]) -> Vec<u8> {
        let last = self.output.finish(bytes);
        self.writer.extend(last);
        self.writer
    }
}

fn screen(bytes: &[u8], cols: u16) -> vt100::Parser {
    let mut parser = vt100::Parser::new(24.try_into().unwrap(), cols.try_into().unwrap(), 0);
    parser.process(bytes);
    parser
}

#[test]
fn mouse_reassertion_does_not_leak_synchronized_update_suffix() {
    let mut mouse = CodexMouseUi::new(24, 100);
    mouse.on_output(b"\x1b[?2004h");
    let mut output = Terminal::new(true);
    for chunk in [b"\x1b[?1004h\x1b[?20".as_slice(), b"26l"] {
        output.write_child(chunk, &mouse.on_output(chunk));
    }
    assert_eq!(screen(&output.writer, 100).screen().contents(), "");
    assert!(output.writer.windows(8).any(|b| b == b"\x1b[?2026l"));
    assert!(output.writer.ends_with(&MOUSE_ENABLE));
}

#[test]
fn extra_output_waits_at_every_sequence_and_utf8_split() {
    for sequence in [
        b"\x1b[?2026l".as_slice(),
        b"\x1b]0;title\x07",
        b"\x1b]0;title\x1b\\",
        b"\x1bP1;2qpayload\x1b\\",
        b"\x1b_Gpayload\x1b\\",
        b"\x1b(B",
        "日".as_bytes(),
    ] {
        for split in 1..sequence.len() {
            for extra in [POINTER_ON.to_vec(), tmux_wrap(&POINTER_ON)] {
                let mut output = Terminal::new(true);
                output.write_child(&sequence[..split], &[]);
                output.write_extra(&extra);
                output.write_child(&sequence[split..], &[]);
                let mut expected = sequence.to_vec();
                expected.extend(extra);
                assert_eq!(output.writer, expected, "{sequence:?}, split {split}");
            }
        }
    }
}

#[test]
fn child_output_is_forwarded_immediately_while_controls_wait() {
    let mut output = Terminal::new(true);
    output.write_child(b"text\x1b[?20", &MOUSE_ENABLE);
    assert_eq!(output.writer, b"text\x1b[?20");
    output.write_extra(&POINTER_ON);
    assert_eq!(output.writer, b"text\x1b[?20");
    output.write_child(b"26l", &[]);
    assert_eq!(
        output.writer,
        [b"text\x1b[?2026l".as_slice(), &MOUSE_ENABLE, &POINTER_ON].concat()
    );
    // At a boundary the controls that wait would be written now.
    assert!(output.output.finish(&[]).is_empty());
}

#[test]
fn input_pointer_update_does_not_leak_synchronized_update_suffix() {
    let mut mouse = CodexMouseUi::new(24, 100);
    mouse.set_tmux_pointer(true);
    mouse.on_output("\x1b[?2004h› 1. First\r\n  2. Other\r\n".as_bytes());
    let mut output = Terminal::new(true);
    output.write_child(b"\x1b[?20", &[]);
    let (_, pointer) = mouse.on_input(b"\x1b[<35;5;1M");
    assert!(!pointer.is_empty());
    output.write_extra(&pointer);
    output.write_child(b"26l", &[]);
    assert_eq!(
        output.writer,
        [b"\x1b[?2026l".as_slice(), &pointer].concat()
    );
    assert_eq!(screen(&output.writer, 100).screen().contents(), "");
}

#[test]
fn cursor_cleanup_recovers_incomplete_output_without_mouse_ui() {
    let cli = Cli {
        strip_cursor_shape: false,
        strip_ink_fake_cursor: true,
        strip_osc_titles: false,
        codex_mouse_ui: false,
        tmux_osc_passthrough: Vec::new(),
        debug_dump: None,
        command: None,
        args: Vec::new(),
    };
    let mut filters = cli.filters();
    let mut output = Terminal::new(true);
    let bytes = filters.filter(b"\x1b[?25l\x1b[?20").into_owned();
    output.write_child(&bytes, &[]);
    let tail = filters.finish();
    output.write_child(&tail, &[]);
    let written = output.finish(&CURSOR_SHOW);
    assert!(written.ends_with(b"\x1b[?20\x18\x1b\\\x18\x1b[?25h"));
    assert!(!screen(&written, 80).screen().hide_cursor());
}

#[test]
fn untracked_output_never_delays_controls() {
    let mut output = Terminal::new(false);
    output.write_child(b"\x1b[?20", &POINTER_ON);
    assert_eq!(output.writer, [b"\x1b[?20".as_slice(), &POINTER_ON].concat());
    assert_eq!(
        output.finish(b"end"),
        [b"\x1b[?20".as_slice(), &POINTER_ON, b"end"].concat()
    );
}

#[test]
fn waiting_controls_are_dropped_when_the_sequence_never_ends() {
    let mut output = Terminal::new(true);
    output.write_child(b"\x1b]0;tit", &MOUSE_ENABLE);
    assert_eq!(
        output.finish(b"end"),
        [b"\x1b]0;tit".as_slice(), &RECOVERY, b"end"].concat()
    );
}

#[test]
fn failed_write_is_recovered_at_any_boundary() {
    let mut output = TerminalOutput::new(true);
    output.write_child(b"text", &[]);
    assert!(!output.has_failed());
    output.mark_write_failed();
    assert!(output.has_failed());
    assert_eq!(output.finish(b"end"), b"\x18\x1b\\\x18end");
}

#[test]
fn boundary_decides_what_is_released() {
    let mut pending = b"a".to_vec();
    assert_eq!(release(&mut pending, b"b", false), b"");
    assert_eq!(pending, b"ab");
    assert_eq!(release(&mut pending, b"c", true), b"abc");
    assert!(pending.is_empty());
}

#[test]
fn boundary_decides_what_closes() {
    assert_eq!(closing(b"a", b"end", true, false), b"aend");
    for (at_boundary, failed) in [(false, false), (false, true), (true, true)] {
        assert_eq!(closing(b"a", b"end", at_boundary, failed), b"\x18\x1b\\\x18end");
    }
}
