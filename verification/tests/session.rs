use std::collections::VecDeque;
use std::io::{self, Write};
use tfil::codex_mouse_ui::{CodexMouseUi, MOUSE_DISABLE, POINTER_OFF};
use tfil::filters::{tmux_wrap, FilterChain, InkFakeCursorFilter};
use tfil::session::buffer::{OutputBuffer, WriteOp};
use tfil::session::coordinator::{Coordinator, Selection, Step};
use tfil::session::reader::{
    output_chunks, read_input_step, read_output_step, ReadResult, ReadStep,
};
use tfil::session::terminal_writer::{TerminalWriter, WriterAction, WriterEvent};
use tfil::session::workers::{Completion, Worker, Workers};
use tfil::session::{
    session_result, InputCommand, ReadEvent, TerminalCommand, CHUNK_SIZE, CURSOR_SHOW,
};
use tfil::terminal_output::TerminalOutput;

type Outcome = Result<(), String>;

/// Drives a coordinator. The writers take a command only when they are asked
/// to, which makes backpressure deterministic.
struct Harness {
    coordinator: Coordinator<String>,
    output: VecDeque<ReadEvent>,
    output_closed: bool,
    input: VecDeque<ReadEvent>,
    input_closed: bool,
    terminal_closed: bool,
    completed: VecDeque<Completion<String>>,
    result: Option<Outcome>,
    aborted: bool,
    stopped: bool,
}

impl Harness {
    fn start(coordinator: Coordinator<String>) -> Self {
        Harness {
            coordinator,
            output: VecDeque::new(),
            output_closed: false,
            input: VecDeque::new(),
            input_closed: false,
            terminal_closed: false,
            completed: VecDeque::new(),
            result: None,
            aborted: false,
            stopped: false,
        }
    }

    fn complete(&mut self, worker: Worker, result: Outcome) {
        self.completed.push_back(Completion { worker, result });
    }

    /// Lets everything happen that needs no writer. Returns what the
    /// coordinator then waits for, unless the session is over.
    fn settle(&mut self) -> Option<Selection> {
        loop {
            if self.result.is_some() {
                return None;
            }
            let selection = match self.coordinator.next_step() {
                Step::Done(result) => {
                    self.result = Some(result);
                    return None;
                }
                Step::Wait(selection) => selection,
            };
            self.stopped |= selection.stop;
            if let Some(notice) = self.completed.pop_front() {
                self.aborted |= self.coordinator.on_completion(notice);
            } else if selection.output && !self.output.is_empty() {
                let event = self.output.pop_front().unwrap();
                self.coordinator.on_output(event);
            } else if selection.output && self.output_closed {
                self.coordinator.on_disconnect(Worker::OutputReader);
            } else if selection.input && !self.input.is_empty() {
                let event = self.input.pop_front().unwrap();
                self.coordinator.on_input(event);
            } else if selection.input && self.input_closed {
                self.coordinator.on_disconnect(Worker::InputReader);
            } else if selection.terminal && self.terminal_closed {
                self.coordinator.take_terminal();
                self.coordinator.on_disconnect(Worker::TerminalWriter);
            } else {
                return Some(selection);
            }
        }
    }

    fn recv_terminal(&mut self) -> Option<TerminalCommand> {
        if self.settle()?.terminal {
            self.coordinator.take_terminal()
        } else {
            None
        }
    }

    fn recv_child(&mut self) -> Option<InputCommand> {
        if self.settle()?.child {
            self.coordinator.take_child()
        } else {
            None
        }
    }

    fn recv_result(&mut self) -> Outcome {
        assert!(self.settle().is_none());
        self.result.take().unwrap()
    }

    fn finish(&mut self) {
        self.output.push_back(ReadEvent::Eof);
        assert!(matches!(
            self.recv_terminal().unwrap(),
            TerminalCommand::Finish(_)
        ));
        // Finish must be acknowledged before session completion.
        assert!(self.settle().is_some());
        self.complete(Worker::TerminalWriter, Ok(()));
        self.recv_result().unwrap();
    }
}

fn coordinator(
    mouse: Option<CodexMouseUi>,
    restore_cursor: bool,
    tmux_pointer: bool,
) -> Coordinator<String> {
    Coordinator::new(mouse, restore_cursor, tmux_pointer)
}

#[test]
fn disconnect_never_masks_reader_error() {
    for notice_first in [false, true] {
        for worker in [Worker::OutputReader, Worker::InputReader] {
            let mut h = Harness::start(coordinator(None, true, false));
            if notice_first {
                h.complete(worker, Err("original read failure".to_string()));
                h.settle();
            }
            if worker == Worker::OutputReader {
                h.output_closed = true;
            } else {
                h.input_closed = true;
            }
            h.settle();
            if !notice_first {
                h.complete(worker, Err("original read failure".to_string()));
            }
            assert!(matches!(
                h.recv_terminal().unwrap(),
                TerminalCommand::Finish(_)
            ));
            h.complete(Worker::TerminalWriter, Ok(()));
            assert_eq!(h.recv_result().unwrap_err(), "original read failure");
        }
    }
}

#[test]
fn disconnected_terminal_preserves_worker_panic() {
    let mut coordinator = coordinator(None, false, false);
    coordinator.on_output(ReadEvent::Data(vec![1]));
    let mut h = Harness::start(coordinator);
    h.terminal_closed = true;
    h.complete(
        Worker::TerminalWriter,
        Err("TerminalWriter panicked".to_string()),
    );
    assert_eq!(h.recv_result().unwrap_err(), "TerminalWriter panicked");
}

#[test]
fn disconnected_terminal_waits_for_its_notice() {
    let mut coordinator = coordinator(None, false, false);
    coordinator.on_output(ReadEvent::Data(vec![1]));
    let mut h = Harness::start(coordinator);
    h.terminal_closed = true;
    assert!(h.settle().is_some());
    h.complete(
        Worker::TerminalWriter,
        Err("TerminalWriter panicked".to_string()),
    );
    assert_eq!(h.recv_result().unwrap_err(), "TerminalWriter panicked");
}

#[test]
fn blocked_child_writer_does_not_stop_output_or_cleanup() {
    let mut coordinator = coordinator(None, true, false);
    coordinator.on_input(ReadEvent::Data(b"blocked input".to_vec()));
    let mut h = Harness::start(coordinator);
    h.output.push_back(ReadEvent::Data(b"output".to_vec()));
    assert!(
        matches!(h.recv_terminal().unwrap(), TerminalCommand::Output { bytes, .. } if bytes == b"output")
    );
    // Keep the child writer blocked throughout shutdown.
    h.finish();
    assert!(h.stopped);
}

#[test]
fn blocked_terminal_writer_does_not_stop_keyboard_input() {
    let mut coordinator = coordinator(None, false, false);
    coordinator.on_output(ReadEvent::Data(b"blocked output".to_vec()));
    let mut h = Harness::start(coordinator);
    h.input.push_back(ReadEvent::Data(b"input".to_vec()));
    assert!(matches!(h.recv_child().unwrap(), InputCommand::Data(bytes) if bytes == b"input"));
    assert!(matches!(
        h.recv_terminal().unwrap(),
        TerminalCommand::Output { .. }
    ));
    h.finish();
}

#[test]
fn writer_failure_is_observed_while_both_writers_are_blocked() {
    let mut coordinator = coordinator(None, false, false);
    coordinator.on_input(ReadEvent::Data(vec![1]));
    coordinator.on_output(ReadEvent::Data(vec![2]));
    let mut h = Harness::start(coordinator);
    h.complete(Worker::TerminalWriter, Err("failed writer".to_string()));
    assert_eq!(h.recv_result().unwrap_err(), "failed writer");
    assert!(h.aborted);
}

#[test]
fn reader_failure_keeps_pending_output_before_cleanup() {
    let mut coordinator = coordinator(None, true, false);
    coordinator.on_output(ReadEvent::Data(b"\x1b[?20".to_vec()));
    let mut h = Harness::start(coordinator);
    h.output.push_back(ReadEvent::Data(b"0".to_vec()));
    h.complete(Worker::OutputReader, Err("failed reader".to_string()));
    h.settle();
    assert!(h.aborted);
    let mut written = Vec::new();
    let mut terminal = TerminalOutput::new(true);
    match h.recv_terminal().unwrap() {
        TerminalCommand::Output { bytes, extra } => {
            written.extend_from_slice(&bytes);
            written.extend(terminal.write_child(&bytes, &extra));
        }
        _ => panic!("pending output lost"),
    }
    match h.recv_terminal().unwrap() {
        TerminalCommand::Output { bytes, extra } => {
            written.extend_from_slice(&bytes);
            written.extend(terminal.write_child(&bytes, &extra));
        }
        _ => panic!("queued output lost"),
    }
    h.output.push_back(ReadEvent::Eof);
    match h.recv_terminal().unwrap() {
        TerminalCommand::Finish(bytes) => written.extend(terminal.finish(&bytes)),
        _ => panic!("missing cleanup"),
    }
    h.complete(Worker::TerminalWriter, Ok(()));
    assert_eq!(h.recv_result().unwrap_err(), "failed reader");
    assert_eq!(written, b"\x1b[?200\x18\x1b\\\x18\x1b[?25h");
}

#[test]
fn input_eof_flushes_partial_report_before_closing_writer() {
    let mut mouse = CodexMouseUi::new(24, 80);
    mouse.on_output(b"\x1b[?2004h");
    let mut h = Harness::start(coordinator(Some(mouse), false, false));
    h.input.push_back(ReadEvent::Data(b"a\x1b[<".to_vec()));
    assert!(matches!(h.recv_child().unwrap(), InputCommand::Data(bytes) if bytes == b"a"));
    h.input.push_back(ReadEvent::Eof);
    assert!(matches!(h.recv_child().unwrap(), InputCommand::Data(bytes) if bytes == b"\x1b[<"));
    assert!(matches!(h.recv_child().unwrap(), InputCommand::Eof));
    h.finish();
}

#[test]
fn first_of_two_errors_is_reported_and_aborts_once() {
    let mut h = Harness::start(coordinator(None, false, false));
    h.complete(Worker::InputReader, Err("first".to_string()));
    h.settle();
    assert!(h.aborted);
    h.aborted = false;
    h.complete(Worker::ChildWriter, Err("second".to_string()));
    h.settle();
    assert!(!h.aborted);
    assert!(matches!(
        h.recv_terminal().unwrap(),
        TerminalCommand::Finish(bytes) if bytes.is_empty()
    ));
    h.complete(Worker::TerminalWriter, Err("third".to_string()));
    assert_eq!(h.recv_result().unwrap_err(), "first");
}

#[test]
fn controls_go_before_the_closing() {
    let mut mouse = CodexMouseUi::new(24, 80);
    mouse.on_output("\u{203A} 1. Yes\r\n  2. No\r\n".as_bytes());
    let mut h = Harness::start(coordinator(Some(mouse), true, false));
    h.output.push_back(ReadEvent::Data(b"\x1b[?1000h".to_vec()));
    h.settle();
    h.input.push_back(ReadEvent::Data(b"\x1b[<35;5;1M".to_vec()));
    h.settle();
    h.output.push_back(ReadEvent::Eof);
    assert!(matches!(h.recv_terminal().unwrap(), TerminalCommand::Output { .. }));
    assert!(matches!(h.recv_terminal().unwrap(), TerminalCommand::Controls(_)));
    let expected = [MOUSE_DISABLE.as_slice(), &POINTER_OFF, &CURSOR_SHOW].concat();
    assert!(matches!(
        h.recv_terminal().unwrap(),
        TerminalCommand::Finish(bytes) if bytes == expected
    ));
}

#[test]
fn cleanup_follows_the_options() {
    assert_eq!(coordinator(None, false, true).cleanup(), b"");
    assert_eq!(coordinator(None, true, true).cleanup(), CURSOR_SHOW);
    let idle = CodexMouseUi::new(24, 80);
    assert_eq!(coordinator(Some(idle), false, true).cleanup(), b"");
    let mut active = CodexMouseUi::new(24, 80);
    active.on_output(b"\x1b[?1049h");
    assert_eq!(
        coordinator(Some(active), true, true).cleanup(),
        [MOUSE_DISABLE.to_vec(), tmux_wrap(&POINTER_OFF), CURSOR_SHOW.to_vec()].concat()
    );
}

#[test]
fn resizing_reaches_the_screen_model() {
    let mut mouse = CodexMouseUi::new(24, 80);
    mouse.on_output("\u{203A} 1. Yes\r\n  2. No\r\n".as_bytes());
    let mut coordinator = coordinator(Some(mouse), false, false);
    coordinator.on_resize(24, 4);
    coordinator.on_output(ReadEvent::Data(b"\x1b[2J\x1b[H  1.\r\n  2.".to_vec()));
    coordinator.take_terminal();
    coordinator.on_input(ReadEvent::Data(b"\x1b[<0;1;1M".to_vec()));
    // No option is marked, so the click is not taken.
    assert!(coordinator.take_child().is_none());
    coordinator.on_resize_closed();
    assert!(matches!(
        coordinator.next_step(),
        Step::Wait(Selection { resize: false, .. })
    ));
}

#[test]
fn workers_are_told_apart() {
    let all = [
        Worker::OutputReader,
        Worker::InputReader,
        Worker::TerminalWriter,
        Worker::TerminalWriteFailure,
        Worker::ChildWriter,
        Worker::Resize,
    ];
    for worker in all {
        let mut workers: Workers<String> = Workers::new();
        workers.disconnect(worker);
        for other in all {
            assert_eq!(workers.disconnected(other), worker == other);
            assert!(!workers.completed(other));
        }
        workers.set_terminal_result(Ok(()));
        assert!(workers.take_result().is_none());
        workers.complete(worker);
        assert!(workers.completed(worker));
        assert_eq!(workers.take_result(), Some(Ok(())));
        assert!(workers.take_result().is_none());
    }
}

#[test]
fn direct_output_flushes_filter_tail_before_eof_and_cleanup() {
    let input = b"text\x1b[7m ";
    let mut filters = FilterChain::new(vec![Box::new(InkFakeCursorFilter::new())]);
    let mut commands = VecDeque::new();
    for read in [ReadResult::Data(input), ReadResult::Eof] {
        let chunks = match read_output_step(&mut filters, read) {
            ReadStep::Send(chunks) | ReadStep::SendLast(chunks) => chunks,
            _ => panic!("nothing to send"),
        };
        for bytes in chunks {
            commands.push_back(TerminalCommand::Output { bytes, extra: Vec::new() });
        }
    }
    commands.push_back(TerminalCommand::Finish(CURSOR_SHOW.to_vec()));
    let mut bytes = Vec::new();
    write_terminal(&mut bytes, true, commands, &mut Vec::new()).unwrap();
    assert_eq!(bytes, [input.as_slice(), &CURSOR_SHOW].concat());
}

#[test]
fn direct_input_precedes_coordinated_eof() {
    let mut sent = Vec::new();
    match read_input_step(ReadResult::Data(b"keyboard input")) {
        ReadStep::Send(chunks) => sent.extend(chunks.concat()),
        _ => panic!("nothing to send"),
    }
    assert!(matches!(
        read_input_step(ReadResult::Eof),
        ReadStep::SendLast(chunks) if chunks.is_empty()
    ));
    assert_eq!(sent, b"keyboard input");
}

#[test]
fn filter_eof_updates_ui_before_finish() {
    let input = b"\x1b[7m \x1b[?2004h";
    let mut filters = FilterChain::new(vec![Box::new(InkFakeCursorFilter::new())]);
    let mut h = Harness::start(coordinator(Some(CodexMouseUi::new(24, 80)), false, false));
    for read in [ReadResult::Data(input.as_slice()), ReadResult::Eof] {
        match read_output_step(&mut filters, read) {
            ReadStep::Send(chunks) => {
                h.output.extend(chunks.into_iter().map(ReadEvent::Data));
            }
            ReadStep::SendLast(chunks) => {
                h.output.extend(chunks.into_iter().map(ReadEvent::Data));
                h.output.push_back(ReadEvent::Eof);
            }
            _ => panic!("nothing to send"),
        }
    }
    let mut output = Vec::new();
    loop {
        match h.recv_terminal().unwrap() {
            TerminalCommand::Output { bytes, .. } => output.extend(bytes),
            TerminalCommand::Controls(_) => {}
            TerminalCommand::Finish(bytes) => {
                assert!(bytes.starts_with(&MOUSE_DISABLE));
                break;
            }
        }
    }
    assert_eq!(output, input);
}

#[test]
fn reads_that_bring_nothing_send_nothing() {
    let mut filters = FilterChain::default();
    assert!(matches!(
        read_output_step(&mut filters, ReadResult::Interrupted),
        ReadStep::ReadOn
    ));
    assert!(matches!(
        read_output_step(&mut filters, ReadResult::Failed),
        ReadStep::Fail
    ));
    assert!(matches!(read_input_step(ReadResult::Interrupted), ReadStep::ReadOn));
    assert!(matches!(read_input_step(ReadResult::Failed), ReadStep::Fail));
}

#[test]
fn output_is_cut_into_chunks() {
    assert!(output_chunks(Vec::new()).is_empty());
    assert_eq!(output_chunks(vec![1, 2, 3]), [vec![1, 2, 3]]);
    let whole: Vec<u8> = (0..2 * CHUNK_SIZE + 5).map(|i| (i % 251) as u8).collect();
    let chunks = output_chunks(whole.clone());
    assert_eq!(
        chunks.iter().map(Vec::len).collect::<Vec<_>>(),
        [CHUNK_SIZE, CHUNK_SIZE, 5]
    );
    assert_eq!(chunks.concat(), whole);
    assert_eq!(output_chunks(vec![7; CHUNK_SIZE]).len(), 1);
}

fn perform(writer: &mut impl Write, op: &WriteOp) -> io::Result<()> {
    match op {
        WriteOp::Bytes(bytes) => writer.write_all(bytes),
        WriteOp::Flush => writer.flush(),
    }
}

/// Performs what the terminal writer decides.
fn write_terminal(
    writer: &mut impl Write,
    track_sequences: bool,
    mut queue: VecDeque<TerminalCommand>,
    errors: &mut Vec<String>,
) -> Result<(), String> {
    let mut terminal = TerminalWriter::new(track_sequences);
    let mut action = WriterAction::Receive;
    loop {
        let event = match action {
            WriterAction::Receive => match queue.pop_front() {
                Some(command) => WriterEvent::Received {
                    command,
                    queue_empty: queue.is_empty(),
                },
                None => WriterEvent::Closed,
            },
            WriterAction::TryReceive => WriterEvent::Next(queue.pop_front()),
            WriterAction::Write { now, controls } => {
                let ok = now.iter().all(|op| perform(writer, op).is_ok());
                if !ok {
                    let what = if controls { "controls" } else { "output" };
                    errors.push(format!("write terminal {what}"));
                }
                WriterEvent::Written {
                    ok,
                    queue_empty: queue.is_empty(),
                }
            }
            WriterAction::Flush(bytes) => {
                let ok = writer.write_all(&bytes).and_then(|_| writer.flush()).is_ok();
                if !ok {
                    errors.push("write terminal output".to_string());
                }
                WriterEvent::Written {
                    ok,
                    queue_empty: queue.is_empty(),
                }
            }
            WriterAction::Close(bytes) => {
                return writer
                    .write_all(&bytes)
                    .and_then(|_| writer.flush())
                    .map_err(|_| "restore terminal modes".to_string());
            }
            WriterAction::Lost => {
                return Err("terminal writer closed without cleanup".to_string());
            }
        };
        action = terminal.step(event);
    }
}

fn output(bytes: &[u8]) -> TerminalCommand {
    TerminalCommand::Output { bytes: bytes.to_vec(), extra: vec![] }
}

#[test]
fn terminal_commands_preserve_sequence_boundaries_and_finish_order() {
    let queue = VecDeque::from([
        output(b"\x1b[3"),
        TerminalCommand::Controls(b"\x1b[?25l".to_vec()),
        output(b"1mX"),
        TerminalCommand::Finish(CURSOR_SHOW.to_vec()),
        TerminalCommand::Controls(b"must not appear".to_vec()),
    ]);
    let mut bytes = Vec::new();
    let mut errors = Vec::new();
    write_terminal(&mut bytes, true, queue, &mut errors).unwrap();
    assert!(errors.is_empty());
    assert_eq!(bytes, b"\x1b[31mX\x1b[?25l\x1b[?25h");
}

#[derive(Default)]
struct RecordingWriter(Vec<Vec<u8>>);

impl Write for RecordingWriter {
    fn write(&mut self, bytes: &[u8]) -> io::Result<usize> {
        if !bytes.is_empty() {
            self.0.push(bytes.to_vec());
        }
        Ok(bytes.len())
    }

    fn flush(&mut self) -> io::Result<()> {
        Ok(())
    }
}

#[test]
fn queued_output_is_batched_with_a_message_limit() {
    let mut queue = VecDeque::new();
    for _ in 0..17 {
        queue.push_back(output(b"x"));
    }
    queue.push_back(TerminalCommand::Finish(CURSOR_SHOW.to_vec()));
    let mut writer = RecordingWriter::default();
    write_terminal(&mut writer, true, queue, &mut Vec::new()).unwrap();
    assert_eq!(
        writer.0,
        [
            vec![b'x'; 8],
            vec![b'x'; 8],
            vec![b'x'],
            CURSOR_SHOW.to_vec()
        ]
    );
}

#[test]
fn queued_output_is_flushed_at_the_byte_limit() {
    let mut queue = VecDeque::new();
    for byte in 0..8 {
        queue.push_back(output(&vec![byte; 20_000]));
    }
    queue.push_back(TerminalCommand::Finish(CURSOR_SHOW.to_vec()));
    let mut writer = RecordingWriter::default();
    write_terminal(&mut writer, true, queue, &mut Vec::new()).unwrap();
    assert_eq!(
        writer.0.iter().map(Vec::len).collect::<Vec<_>>(),
        [60_000, 60_000, 40_000, CURSOR_SHOW.len()]
    );
    let expected: Vec<_> = (0..8)
        .flat_map(|byte| vec![byte; 20_000])
        .chain(CURSOR_SHOW.iter().copied())
        .collect();
    assert_eq!(writer.0.concat(), expected);
}

#[test]
fn isolated_output_is_flushed_before_waiting_for_another_command() {
    let mut terminal = TerminalWriter::new(true);
    let received = WriterEvent::Received {
        command: output(b"x"),
        queue_empty: true,
    };
    let written = || WriterEvent::Written {
        ok: true,
        queue_empty: true,
    };
    assert!(matches!(
        terminal.step(received),
        WriterAction::Write { now, controls: false } if now == [WriteOp::Bytes(b"x".to_vec())]
    ));
    assert!(matches!(
        terminal.step(written()),
        WriterAction::Flush(bytes) if bytes.is_empty()
    ));
    assert!(matches!(terminal.step(written()), WriterAction::Receive));
    let finish = WriterEvent::Received {
        command: TerminalCommand::Finish(vec![]),
        queue_empty: true,
    };
    assert!(matches!(
        terminal.step(finish),
        WriterAction::Flush(bytes) if bytes.is_empty()
    ));
    assert!(matches!(
        terminal.step(written()),
        WriterAction::Close(bytes) if bytes.is_empty()
    ));
    assert!(matches!(terminal.step(written()), WriterAction::Lost));
}

#[test]
fn answers_to_another_action_change_nothing() {
    let mut terminal = TerminalWriter::new(true);
    assert!(matches!(
        terminal.step(WriterEvent::Next(Some(output(b"lost")))),
        WriterAction::Lost
    ));
    assert!(matches!(
        terminal.step(WriterEvent::Received {
            command: output(b"x"),
            queue_empty: false,
        }),
        WriterAction::Write { now, .. } if now.is_empty()
    ));
}

#[test]
fn session_result_prefers_the_coordinators_error() {
    let run = |run: Result<(), &'static str>, waited| session_result(run, waited);
    assert_eq!(run(Ok(()), Ok(0)), Ok(0));
    assert_eq!(run(Ok(()), Ok(42)), Ok(42));
    assert_eq!(run(Ok(()), Ok(0x8000_0000)), Ok(i32::MIN));
    assert_eq!(run(Ok(()), Ok(u32::MAX)), Ok(-1));
    assert_eq!(run(Ok(()), Err("wait failed")), Err("wait failed"));
    assert_eq!(run(Err("failed reader"), Ok(0)), Err("failed reader"));
    assert_eq!(run(Err("failed reader"), Err("wait failed")), Err("failed reader"));
}

#[test]
fn output_buffer_never_exceeds_one_chunk_or_flushes_on_drop() {
    let mut writer = RecordingWriter::default();
    {
        let mut output = OutputBuffer::new();
        output.buffered = true;
        let chunk = vec![b'x'; CHUNK_SIZE / 2 + 1];
        let mut now = Vec::new();
        output.write(&chunk, &mut now);
        output.write(&chunk, &mut now);
        for op in &now {
            perform(&mut writer, op).unwrap();
        }
        assert_eq!(output.bytes.capacity(), CHUNK_SIZE);
        // The second half remains buffered and must not be retried on drop.
    }
    assert_eq!(writer.0, [vec![b'x'; CHUNK_SIZE / 2 + 1]]);
}

#[test]
fn full_chunks_are_not_buffered() {
    let bytes = |bytes: &[u8]| WriteOp::Bytes(bytes.to_vec());
    let full = vec![b'x'; CHUNK_SIZE];
    let over = vec![b'y'; CHUNK_SIZE + 1];
    let mut output = OutputBuffer::new();
    let mut now = Vec::new();
    output.write(b"direct", &mut now);
    assert_eq!(now, [bytes(b"direct")]);
    now.clear();
    output.buffered = true;
    output.write(b"small", &mut now);
    output.write(&[], &mut now);
    assert!(now.is_empty());
    // What waits makes room, and the writer is flushed behind it.
    output.write(&full, &mut now);
    assert_eq!(now, [bytes(b"small"), WriteOp::Flush, bytes(&full)]);
    assert!(output.bytes.is_empty());
    // A full chunk fits an empty buffer; more than that does not.
    now.clear();
    output.write(&full, &mut now);
    assert_eq!(now, [bytes(&full)]);
    now.clear();
    output.write(&over, &mut now);
    assert_eq!(now, [WriteOp::Flush, bytes(&over)]);
    assert!(output.bytes.is_empty());
}

#[test]
fn full_buffer_is_flushed_before_the_batch_ends() {
    #[derive(Default)]
    struct Log(Vec<Result<usize, &'static str>>);
    impl Write for Log {
        fn write(&mut self, bytes: &[u8]) -> io::Result<usize> {
            self.0.push(Ok(bytes.len()));
            Ok(bytes.len())
        }
        fn flush(&mut self) -> io::Result<()> {
            self.0.push(Err("flush"));
            Ok(())
        }
    }
    // The controls that wait for the end of a sequence overfill the buffer.
    let controls = vec![0; CHUNK_SIZE - 1];
    let queue = VecDeque::from([
        output(b"\x1b["),
        TerminalCommand::Controls(controls),
        output(b"1m"),
        TerminalCommand::Finish(vec![]),
    ]);
    let mut writer = Log::default();
    write_terminal(&mut writer, true, queue, &mut Vec::new()).unwrap();
    assert_eq!(
        writer.0,
        [
            Ok(2),
            Err("flush"),
            Err("flush"),
            Ok(2),
            Err("flush"),
            Ok(CHUNK_SIZE - 1),
            Err("flush"),
            Err("flush"),
        ]
    );
}

#[test]
fn partial_batch_failure_discards_suffix_and_recovers_unknown_boundary() {
    struct FailAfterEscape {
        calls: usize,
        bytes: Vec<u8>,
    }
    impl Write for FailAfterEscape {
        fn write(&mut self, bytes: &[u8]) -> io::Result<usize> {
            self.calls += 1;
            match self.calls {
                1 => {
                    self.bytes.push(bytes[0]);
                    Ok(1)
                }
                2 => Err(io::Error::other("partial write failed")),
                _ => {
                    self.bytes.extend_from_slice(bytes);
                    Ok(bytes.len())
                }
            }
        }
        fn flush(&mut self) -> io::Result<()> {
            Ok(())
        }
    }
    let queue = VecDeque::from([
        output(b"\x1b[31mtext"),
        TerminalCommand::Controls(b"\x1b[?25l".to_vec()),
        TerminalCommand::Finish(CURSOR_SHOW.to_vec()),
    ]);
    let mut writer = FailAfterEscape { calls: 0, bytes: vec![] };
    let mut errors = Vec::new();
    write_terminal(&mut writer, true, queue, &mut errors).unwrap();
    assert_eq!(errors, ["write terminal output"]);
    assert_eq!(writer.bytes, b"\x1b\x18\x1b\\\x18\x1b[?25h");
}

#[test]
fn failed_terminal_write_still_attempts_cleanup() {
    struct FailOnce {
        failed: bool,
        bytes: Vec<u8>,
    }
    impl Write for FailOnce {
        fn write(&mut self, bytes: &[u8]) -> io::Result<usize> {
            if !self.failed {
                self.failed = true;
                return Err(io::Error::other("transient failure"));
            }
            self.bytes.extend_from_slice(bytes);
            Ok(bytes.len())
        }
        fn flush(&mut self) -> io::Result<()> {
            Ok(())
        }
    }
    let queue = VecDeque::from([
        output(b"\x1b[?20"),
        TerminalCommand::Controls(b"must not appear".to_vec()),
        TerminalCommand::Finish(CURSOR_SHOW.to_vec()),
    ]);
    let mut writer = FailOnce { failed: false, bytes: Vec::new() };
    let mut errors = Vec::new();
    write_terminal(&mut writer, true, queue, &mut errors).unwrap();
    assert_eq!(errors, ["write terminal output"]);
    assert_eq!(writer.bytes, b"\x18\x1b\\\x18\x1b[?25h");
}

#[test]
fn failed_closing_is_an_error_behind_one_report() {
    struct FailedIo;
    impl Write for FailedIo {
        fn write(&mut self, _: &[u8]) -> io::Result<usize> {
            Err(io::Error::other("write failed"))
        }
        fn flush(&mut self) -> io::Result<()> {
            Ok(())
        }
    }
    let queue = VecDeque::from([
        output(&[1]),
        TerminalCommand::Finish(CURSOR_SHOW.to_vec()),
    ]);
    let mut failures = Vec::new();
    assert_eq!(
        write_terminal(&mut FailedIo, true, queue, &mut failures).unwrap_err(),
        "restore terminal modes"
    );
    assert_eq!(failures, ["write terminal output"]);
    assert_eq!(
        write_terminal(&mut Vec::new(), true, VecDeque::new(), &mut failures).unwrap_err(),
        "terminal writer closed without cleanup"
    );
}
