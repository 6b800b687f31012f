//! What the coordinator decides.
//!
//! Pending sends participate in selection so a stalled writer cannot prevent
//! processing the opposite direction or observing worker failures.
use vstd::prelude::*;

use crate::codex_mouse_ui::screen::ScreenOp;
use crate::codex_mouse_ui::steering::{self, UiModel};
use crate::codex_mouse_ui::{screen, CodexMouseUi, MOUSE_DISABLE, POINTER_OFF};
use crate::filters::{tmux_osc_passthrough, tmux_wrap};
use crate::session::workers::{Completion, Worker, Workers, WorkersModel};
use crate::session::{
    InputCommand, InputOrder, ReadEvent, TerminalCommand, TerminalOrder, CURSOR_SHOW,
};

verus! {

/// How far the output has come.
#[derive(Clone, Copy, Debug, PartialEq, Eq, Structural)]
pub enum OutputState {
    /// There may be more.
    Reading,
    /// There is no more; what is pending is still to be sent.
    Draining,
    /// The closing controls are pending or have been sent.
    FinishQueued,
}

impl OutputState {
    /// Once there is no more output.
    pub open spec fn closed(self) -> OutputState {
        if self == OutputState::Reading {
            OutputState::Draining
        } else {
            self
        }
    }

    fn close(&mut self)
        ensures
            *final(self) == old(self).closed(),
    {
        if *self == OutputState::Reading {
            *self = OutputState::Draining;
        }
    }
}

/// How far the input has come.
#[derive(Clone, Copy, Debug, PartialEq, Eq, Structural)]
pub enum InputState {
    /// There may be more.
    Reading,
    /// There is no more; what is pending is still to be sent.
    Draining,
    /// The order to close the child's input is pending or has been sent.
    CloseQueued,
    /// The child's input is closed.
    Closed,
}

impl InputState {
    /// Once there is no more input.
    pub open spec fn closed(self) -> InputState {
        if self == InputState::Reading {
            InputState::Draining
        } else {
            self
        }
    }

    fn close(&mut self)
        ensures
            *final(self) == old(self).closed(),
    {
        if *self == InputState::Reading {
            *self = InputState::Draining;
        }
    }
}

/// The mouse handling: what its screen model was told, and its state.
#[verifier::ext_equal]
pub struct MouseModel {
    pub ops: Seq<ScreenOp>,
    pub ui: UiModel,
}

/// The state of the coordinator.
#[verifier::reject_recursive_types(E)]
#[verifier::ext_equal]
pub struct CoordinatorModel<E> {
    pub mouse: Option<MouseModel>,
    /// Whether the cursor is to be shown at the end.
    pub restore_cursor: bool,
    /// Whether pointer shapes are wrapped for tmux.
    pub tmux_pointer: bool,
    /// What the terminal writer is to be told next.
    pub pending_terminal: Option<TerminalOrder>,
    /// Controls that the terminal writer is to be told after that.
    pub pending_controls: Option<Seq<u8>>,
    /// What the child's input writer is to be told next.
    pub pending_child: Option<InputOrder>,
    pub output: OutputState,
    pub input: InputState,
    /// The first error of a worker other than the terminal writer.
    pub error: Option<E>,
    pub workers: WorkersModel<E>,
    /// Whether no more changes of the terminal's size will be told.
    pub resize_closed: bool,
    /// Whether the readers have been told to stop.
    pub stopped: bool,
}

/// Which channels the coordinator waits for, besides the workers' notices.
#[derive(Clone, Copy, Debug, PartialEq, Eq, Structural)]
pub struct Selection {
    /// Output to be received.
    pub output: bool,
    /// Input to be received.
    pub input: bool,
    /// A command to be sent to the terminal writer.
    pub terminal: bool,
    /// A command to be sent to the child's input writer.
    pub child: bool,
    /// A change of the terminal's size to be received.
    pub resize: bool,
    /// Whether the readers are to stop.
    pub stop: bool,
}

/// What the coordinator does next.
pub enum Step<E> {
    /// It waits.
    Wait(Selection),
    /// The session is over.
    Done(Result<(), E>),
}

impl<E> CoordinatorModel<E> {
    /// The state of a session that has just begun.
    pub open spec fn begun(mouse: Option<MouseModel>, restore_cursor: bool, tmux_pointer: bool)
        -> CoordinatorModel<E> {
        CoordinatorModel {
            mouse,
            restore_cursor,
            tmux_pointer,
            pending_terminal: None,
            pending_controls: None,
            pending_child: None,
            output: OutputState::Reading,
            input: InputState::Reading,
            error: None,
            workers: WorkersModel {
                disconnected: Set::empty(),
                completed: Set::empty(),
                terminal_result: None,
            },
            resize_closed: false,
            stopped: false,
        }
    }

    /// The closing controls: mouse reporting is turned off and the pointer
    /// restored where mouse reporting may be on, and the cursor is shown where
    /// that was asked for.
    pub open spec fn closing(self) -> Seq<u8> {
        let mouse = if self.mouse is Some && self.mouse->0.ui.active {
            MOUSE_DISABLE@ + if self.tmux_pointer {
                tmux_osc_passthrough::tmux_wrapped(POINTER_OFF@)
            } else {
                POINTER_OFF@
            }
        } else {
            seq![]
        };
        mouse + if self.restore_cursor {
            CURSOR_SHOW@
        } else {
            seq![]
        }
    }

    /// After output of the child.
    pub open spec fn after_output(self, bytes: Seq<u8>) -> CoordinatorModel<E> {
        match self.mouse {
            Some(mouse) => {
                let ops = mouse.ops.push(ScreenOp::Feed(bytes));
                let outcome = steering::output_step(mouse.ui, screen::shown(ops), bytes);
                CoordinatorModel {
                    mouse: Some(MouseModel { ops, ui: outcome.ui }),
                    pending_terminal: Some(
                        TerminalOrder::Output { bytes, extra: outcome.to_term },
                    ),
                    ..self
                }
            },
            None => CoordinatorModel {
                pending_terminal: Some(TerminalOrder::Output { bytes, extra: seq![] }),
                ..self
            },
        }
    }

    /// After the end of the output.
    pub open spec fn after_output_end(self) -> CoordinatorModel<E> {
        CoordinatorModel { output: self.output.closed(), ..self }
    }

    /// With `bytes` to be sent to the child, if there are any.
    pub open spec fn sending(self, bytes: Seq<u8>) -> CoordinatorModel<E> {
        if bytes.len() > 0 {
            CoordinatorModel { pending_child: Some(InputOrder::Data(bytes)), ..self }
        } else {
            self
        }
    }

    /// With controls to be sent to the terminal, if there are any.
    pub open spec fn controlling(self, bytes: Seq<u8>) -> CoordinatorModel<E> {
        if bytes.len() > 0 {
            CoordinatorModel { pending_controls: Some(bytes), ..self }
        } else {
            self
        }
    }

    /// After input.
    pub open spec fn after_input(self, bytes: Seq<u8>) -> CoordinatorModel<E> {
        match self.mouse {
            Some(mouse) => {
                let outcome = steering::input_run(mouse.ui, screen::shown(mouse.ops), bytes);
                CoordinatorModel {
                    mouse: Some(MouseModel { ops: mouse.ops, ui: outcome.ui }),
                    ..self
                }.sending(outcome.to_child).controlling(outcome.to_term)
            },
            None => self.sending(bytes),
        }
    }

    /// After the end of the input: what was held back of it is sent.
    pub open spec fn after_input_end(self) -> CoordinatorModel<E> {
        let closed = CoordinatorModel { input: self.input.closed(), ..self };
        match self.mouse {
            Some(mouse) => CoordinatorModel {
                mouse: Some(
                    MouseModel {
                        ops: mouse.ops,
                        ui: UiModel { pending: seq![], ..mouse.ui },
                    },
                ),
                ..closed
            }.sending(mouse.ui.pending),
            None => closed,
        }
    }

    /// With the controls, then the closing controls, as the terminal writer's
    /// next command, where it has none.
    pub open spec fn with_terminal(self) -> CoordinatorModel<E> {
        if self.pending_terminal is Some {
            self
        } else if self.pending_controls is Some {
            CoordinatorModel {
                pending_terminal: Some(TerminalOrder::Controls(self.pending_controls->0)),
                pending_controls: None,
                ..self
            }
        } else if self.output == OutputState::Draining {
            CoordinatorModel {
                pending_terminal: Some(TerminalOrder::Finish(self.closing())),
                output: OutputState::FinishQueued,
                ..self
            }
        } else {
            self
        }
    }

    /// With the readers stopped, once there is no more output.
    pub open spec fn with_readers(self) -> CoordinatorModel<E> {
        if self.output == OutputState::Reading {
            self
        } else {
            CoordinatorModel { stopped: true, input: self.input.closed(), ..self }
        }
    }

    /// With the order to close the child's input, once there is no more input
    /// and nothing else is pending.
    pub open spec fn with_child(self) -> CoordinatorModel<E> {
        if self.input == InputState::Draining && self.pending_child is None {
            CoordinatorModel {
                pending_child: Some(InputOrder::Eof),
                input: InputState::CloseQueued,
                ..self
            }
        } else {
            self
        }
    }

    /// With the next commands.
    pub open spec fn prepared(self) -> CoordinatorModel<E> {
        self.with_readers().with_terminal().with_child()
    }

    /// The channels to wait for.
    pub open spec fn selection(self) -> Selection {
        Selection {
            output: self.output == OutputState::Reading && !self.workers.disconnected.contains(
                Worker::OutputReader,
            ) && self.pending_terminal is None,
            input: self.input == InputState::Reading && self.pending_controls is None
                && self.pending_child is None,
            terminal: self.pending_terminal is Some && !self.workers.disconnected.contains(
                Worker::TerminalWriter,
            ),
            child: self.pending_child is Some,
            resize: !self.resize_closed && self.output == OutputState::Reading,
            stop: self.stopped,
        }
    }

    /// After an error: the first one is kept.
    pub open spec fn after_error(self, error: E) -> CoordinatorModel<E> {
        if self.error is None {
            CoordinatorModel { error: Some(error), ..self }
        } else {
            self
        }
    }

    /// After the notice of a worker that has ended.
    pub open spec fn after_completion(self, worker: Worker, result: Result<(), E>)
        -> CoordinatorModel<E> {
        let noted = CoordinatorModel {
            workers: WorkersModel {
                completed: self.workers.completed.insert(worker),
                ..self.workers
            },
            ..self
        };
        match worker {
            Worker::TerminalWriter => CoordinatorModel {
                workers: WorkersModel { terminal_result: Some(result), ..noted.workers },
                ..noted
            },
            // Previously queued bytes still precede the closing controls, so
            // the output ends here only where its channel is closed already.
            Worker::OutputReader => {
                let closed = if self.workers.disconnected.contains(worker) {
                    noted.after_output_end()
                } else {
                    noted
                };
                match result {
                    Ok(_) => closed,
                    Err(error) => closed.after_error(error),
                }
            },
            _ => {
                let closed = if worker == Worker::ChildWriter {
                    CoordinatorModel {
                        input: InputState::Closed,
                        pending_child: None,
                        ..noted
                    }
                } else {
                    noted
                };
                match result {
                    Ok(_) => closed,
                    Err(error) => closed.after_error(error).after_output_end(),
                }
            },
        }
    }

    /// Whether the notice of a worker that has ended calls for killing the
    /// child: its first error, and any error of the terminal writer.
    pub open spec fn aborts(self, worker: Worker, result: Result<(), E>) -> bool {
        result is Err && (worker == Worker::TerminalWriter || self.error is None)
    }

    /// After a worker's channel was found closed.
    pub open spec fn after_disconnect(self, worker: Worker) -> CoordinatorModel<E> {
        let noted = CoordinatorModel {
            workers: WorkersModel {
                disconnected: self.workers.disconnected.insert(worker),
                ..self.workers
            },
            ..self
        };
        match worker {
            Worker::OutputReader => if self.workers.completed.contains(worker) {
                noted.after_output_end()
            } else {
                noted
            },
            Worker::InputReader => CoordinatorModel { input: self.input.closed(), ..noted },
            Worker::ChildWriter => CoordinatorModel { input: InputState::Closed, ..noted },
            _ => noted,
        }
    }

    /// After the terminal was resized.
    pub open spec fn after_resize(self, rows: u16, cols: u16) -> CoordinatorModel<E> {
        match self.mouse {
            Some(mouse) => CoordinatorModel {
                mouse: Some(
                    MouseModel {
                        ops: mouse.ops.push(ScreenOp::Resize { rows, cols }),
                        ui: mouse.ui,
                    },
                ),
                ..self
            },
            None => self,
        }
    }

    /// How the session ends: with the first error of a worker, or else as the
    /// terminal writer ended.
    pub open spec fn verdict(self) -> Result<(), E> {
        match self.error {
            Some(error) => Err(error),
            None => self.workers.terminal_result->0,
        }
    }
}

/// Owns the UI model and decides what the readers and writers do next.
pub struct Coordinator<E> {
    mouse: Option<CodexMouseUi>,
    restore_cursor: bool,
    tmux_pointer: bool,
    pending_terminal: Option<TerminalCommand>,
    pending_controls: Option<Vec<u8>>,
    pending_child: Option<InputCommand>,
    output: OutputState,
    input: InputState,
    error: Option<E>,
    workers: Workers<E>,
    resize_closed: bool,
    stopped: bool,
}

/// The mouse handling, as mathematics.
pub open spec fn mouse_model(mouse: Option<CodexMouseUi>) -> Option<MouseModel> {
    match mouse {
        Some(mouse) => Some(MouseModel { ops: mouse.ops(), ui: mouse.ui() }),
        None => None,
    }
}

impl<E> Coordinator<E> {
    /// The state, as mathematics.
    pub closed spec fn model(self) -> CoordinatorModel<E> {
        CoordinatorModel {
            mouse: mouse_model(self.mouse),
            restore_cursor: self.restore_cursor,
            tmux_pointer: self.tmux_pointer,
            pending_terminal: match self.pending_terminal {
                Some(command) => Some(command@),
                None => None,
            },
            pending_controls: match self.pending_controls {
                Some(controls) => Some(controls@),
                None => None,
            },
            pending_child: match self.pending_child {
                Some(command) => Some(command@),
                None => None,
            },
            output: self.output,
            input: self.input,
            error: self.error,
            workers: self.workers.model(),
            resize_closed: self.resize_closed,
            stopped: self.stopped,
        }
    }

    /// Creates the coordinator of a session that has just begun.
    pub fn new(mouse: Option<CodexMouseUi>, restore_cursor: bool, tmux_pointer: bool) -> (
        coordinator: Self)
        ensures
            coordinator.model() == CoordinatorModel::<E>::begun(
                mouse_model(mouse),
                restore_cursor,
                tmux_pointer,
            ),
    {
        Coordinator {
            mouse,
            restore_cursor,
            tmux_pointer,
            pending_terminal: None,
            pending_controls: None,
            pending_child: None,
            output: OutputState::Reading,
            input: InputState::Reading,
            error: None,
            workers: Workers::new(),
            resize_closed: false,
            stopped: false,
        }
    }

    /// The closing controls.
    pub fn cleanup(&self) -> (bytes: Vec<u8>)
        ensures
            bytes@ == self.model().closing(),
    {
        let mut bytes: Vec<u8> = Vec::new();
        let active: bool = match &self.mouse {
            Some(mouse) => mouse.is_active(),
            None => false,
        };
        if active {
            bytes.extend_from_slice(&MOUSE_DISABLE);
            if self.tmux_pointer {
                let wrapped = tmux_wrap(&POINTER_OFF);
                bytes.extend_from_slice(&wrapped);
            } else {
                bytes.extend_from_slice(&POINTER_OFF);
            }
        }
        if self.restore_cursor {
            bytes.extend_from_slice(&CURSOR_SHOW);
        }
        assert(bytes@ =~= self.model().closing());
        bytes
    }

    /// Takes what the output reader hands on.
    pub fn on_output(&mut self, event: ReadEvent)
        ensures
            final(self).model() == match event {
                ReadEvent::Data(bytes) => old(self).model().after_output(bytes@),
                ReadEvent::Eof => old(self).model().after_output_end(),
            },
    {
        match event {
            ReadEvent::Data(bytes) => {
                let extra = match &mut self.mouse {
                    Some(mouse) => mouse.on_output(&bytes),
                    None => Vec::new(),
                };
                self.pending_terminal = Some(TerminalCommand::Output { bytes, extra });
                assert(self.model() =~= old(self).model().after_output(bytes@));
            },
            ReadEvent::Eof => self.output.close(),
        }
    }

    /// Takes what the input reader hands on.
    pub fn on_input(&mut self, event: ReadEvent)
        ensures
            final(self).model() == match event {
                ReadEvent::Data(bytes) => old(self).model().after_input(bytes@),
                ReadEvent::Eof => old(self).model().after_input_end(),
            },
    {
        match event {
            ReadEvent::Data(bytes) => {
                let (to_child, controls) = match &mut self.mouse {
                    Some(mouse) => mouse.on_input(&bytes),
                    None => (bytes, Vec::new()),
                };
                if to_child.len() > 0 {
                    self.pending_child = Some(InputCommand::Data(to_child));
                }
                if controls.len() > 0 {
                    self.pending_controls = Some(controls);
                }
                assert(self.model() =~= old(self).model().after_input(bytes@));
            },
            ReadEvent::Eof => {
                self.input.close();
                let tail = match &mut self.mouse {
                    Some(mouse) => mouse.finish_input(),
                    None => Vec::new(),
                };
                if tail.len() > 0 {
                    self.pending_child = Some(InputCommand::Data(tail));
                }
                assert(self.model() =~= old(self).model().after_input_end());
            },
        }
    }

    fn prepare_commands(&mut self)
        ensures
            final(self).model() == old(self).model().prepared(),
    {
        if self.output != OutputState::Reading {
            self.stopped = true;
            self.input.close();
        }
        assert(self.model() =~= old(self).model().with_readers());
        if self.pending_terminal.is_none() {
            if let Some(controls) = self.pending_controls.take() {
                self.pending_terminal = Some(TerminalCommand::Controls(controls));
            } else if self.output == OutputState::Draining {
                self.pending_terminal = Some(TerminalCommand::Finish(self.cleanup()));
                self.output = OutputState::FinishQueued;
            }
        }
        assert(self.model() =~= old(self).model().with_readers().with_terminal());
        if self.input == InputState::Draining && self.pending_child.is_none() {
            self.pending_child = Some(InputCommand::Eof);
            self.input = InputState::CloseQueued;
        }
    }

    /// Decides what to do next. The session is over once the terminal writer
    /// has ended and no other worker owes its notice.
    pub fn next_step(&mut self) -> (step: Step<E>)
        ensures
            ({
                let before = old(self).model();
                if before.workers.is_over() {
                    step == Step::Done(before.verdict())
                } else {
                    &&& step == Step::<E>::Wait(before.prepared().selection())
                    &&& final(self).model() == before.prepared()
                }
            }),
    {
        if let Some(result) = self.workers.take_result() {
            return Step::Done(
                match self.error.take() {
                    Some(error) => Err(error),
                    None => result,
                },
            );
        }
        self.prepare_commands();
        Step::Wait(
            Selection {
                output: self.output == OutputState::Reading && !self.workers.disconnected(
                    Worker::OutputReader,
                ) && self.pending_terminal.is_none(),
                input: self.input == InputState::Reading && self.pending_controls.is_none()
                    && self.pending_child.is_none(),
                terminal: self.pending_terminal.is_some() && !self.workers.disconnected(
                    Worker::TerminalWriter,
                ),
                child: self.pending_child.is_some(),
                resize: !self.resize_closed && self.output == OutputState::Reading,
                stop: self.stopped,
            },
        )
    }

    /// Takes the next command for the terminal writer.
    pub fn take_terminal(&mut self) -> (command: Option<TerminalCommand>)
        ensures
            match command {
                Some(command) => old(self).model().pending_terminal == Some(command@),
                None => old(self).model().pending_terminal is None,
            },
            final(self).model() == (CoordinatorModel {
                pending_terminal: None,
                ..old(self).model()
            }),
    {
        self.pending_terminal.take()
    }

    /// Takes the next command for the child's input writer.
    pub fn take_child(&mut self) -> (command: Option<InputCommand>)
        ensures
            match command {
                Some(command) => old(self).model().pending_child == Some(command@),
                None => old(self).model().pending_child is None,
            },
            final(self).model() == (CoordinatorModel { pending_child: None, ..old(self).model() }),
    {
        self.pending_child.take()
    }

    fn record_error(&mut self, error: E) -> (first: bool)
        ensures
            final(self).model() == old(self).model().after_error(error),
            first == (old(self).model().error is None),
    {
        if self.error.is_none() {
            self.error = Some(error);
            true
        } else {
            false
        }
    }

    /// Takes the notice of a worker that has ended. Says whether the child is
    /// to be killed.
    pub fn on_completion(&mut self, completion: Completion<E>) -> (abort: bool)
        ensures
            final(self).model() == old(self).model().after_completion(
                completion.worker,
                completion.result,
            ),
            abort == old(self).model().aborts(completion.worker, completion.result),
    {
        let Completion { worker, result } = completion;
        self.workers.complete(worker);
        if worker == Worker::TerminalWriter {
            let abort = result.is_err();
            self.workers.set_terminal_result(result);
            return abort;
        }
        if worker == Worker::ChildWriter {
            self.input = InputState::Closed;
            self.pending_child = None;
        }
        if worker == Worker::OutputReader {
            if self.workers.disconnected(worker) {
                self.output.close();
            }
            return match result {
                Ok(_) => false,
                Err(error) => self.record_error(error),
            };
        }
        match result {
            Ok(_) => false,
            Err(error) => {
                let abort = self.record_error(error);
                self.output.close();
                abort
            },
        }
    }

    /// Notes that the channel from or to a worker is closed.
    pub fn on_disconnect(&mut self, worker: Worker)
        ensures
            final(self).model() == old(self).model().after_disconnect(worker),
    {
        self.workers.disconnect(worker);
        match worker {
            Worker::OutputReader => {
                if self.workers.completed(worker) {
                    self.output.close();
                }
            },
            Worker::InputReader => self.input.close(),
            Worker::ChildWriter => self.input = InputState::Closed,
            _ => {},
        }
    }

    /// Notes the terminal's new size.
    pub fn on_resize(&mut self, rows: u16, cols: u16)
        requires
            rows > 0,
            cols > 0,
        ensures
            final(self).model() == old(self).model().after_resize(rows, cols),
    {
        if let Some(mouse) = &mut self.mouse {
            mouse.resize(rows, cols);
        }
        assert(self.model() =~= old(self).model().after_resize(rows, cols));
    }

    /// Notes that no more changes of the terminal's size will be told.
    pub fn on_resize_closed(&mut self)
        ensures
            final(self).model() == (CoordinatorModel { resize_closed: true, ..old(self).model() }),
    {
        self.resize_closed = true;
    }
}

} // verus!
