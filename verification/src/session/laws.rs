//! What holds of a session as a whole.
use vstd::prelude::*;

use crate::codex_mouse_ui::screen::ScreenOp;
use crate::codex_mouse_ui::{laws as mouse_laws, screen, steering, MOUSE_DISABLE};
use crate::session::coordinator::{CoordinatorModel, InputState, MouseModel, OutputState};
use crate::session::workers::Worker;
use crate::session::{InputOrder, TerminalOrder, CURSOR_SHOW};

verus! {

/// What can happen to the coordinator while it waits.
pub enum Happening<E> {
    /// A worker gives notice that it has ended.
    Completed(Worker, Result<(), E>),
    Output(Seq<u8>),
    OutputEnd,
    OutputClosed,
    Input(Seq<u8>),
    InputEnd,
    InputClosed,
    /// The terminal writer has taken a command.
    TerminalTaken,
    TerminalClosed,
    /// The child's input writer has taken a command.
    ChildTaken,
    ChildClosed,
    Resized { rows: u16, cols: u16 },
    ResizeClosed,
}

/// Whether something can happen: the coordinator waits for it.
pub open spec fn is_possible<E>(waiting: CoordinatorModel<E>, what: Happening<E>) -> bool {
    match what {
        Happening::Completed(_, _) => true,
        Happening::Output(_) | Happening::OutputEnd | Happening::OutputClosed => {
            waiting.selection().output
        },
        Happening::Input(_) | Happening::InputEnd | Happening::InputClosed => {
            waiting.selection().input
        },
        Happening::TerminalTaken | Happening::TerminalClosed => waiting.selection().terminal,
        Happening::ChildTaken | Happening::ChildClosed => waiting.selection().child,
        Happening::Resized { rows, cols } => waiting.selection().resize,
        Happening::ResizeClosed => waiting.selection().resize,
    }
}

/// What it does.
pub open spec fn after<E>(waiting: CoordinatorModel<E>, what: Happening<E>) -> CoordinatorModel<E> {
    match what {
        Happening::Completed(worker, result) => waiting.after_completion(worker, result),
        Happening::Output(bytes) => waiting.after_output(bytes),
        Happening::OutputEnd => waiting.after_output_end(),
        Happening::OutputClosed => waiting.after_disconnect(Worker::OutputReader),
        Happening::Input(bytes) => waiting.after_input(bytes),
        Happening::InputEnd => waiting.after_input_end(),
        Happening::InputClosed => waiting.after_disconnect(Worker::InputReader),
        Happening::TerminalTaken => CoordinatorModel { pending_terminal: None, ..waiting },
        Happening::TerminalClosed => CoordinatorModel {
            pending_terminal: None,
            ..waiting
        }.after_disconnect(Worker::TerminalWriter),
        Happening::ChildTaken => CoordinatorModel { pending_child: None, ..waiting },
        Happening::ChildClosed => CoordinatorModel {
            pending_child: None,
            ..waiting
        }.after_disconnect(Worker::ChildWriter),
        Happening::Resized { rows, cols } => waiting.after_resize(rows, cols),
        Happening::ResizeClosed => CoordinatorModel { resize_closed: true, ..waiting },
    }
}

/// What holds of the coordinator at all times.
pub open spec fn is_consistent<E>(coordinator: CoordinatorModel<E>) -> bool {
    // The closing controls are the last command to the terminal writer.
    &&& coordinator.output == OutputState::FinishQueued ==> {
        &&& coordinator.pending_controls is None
        &&& coordinator.pending_terminal is Some ==> coordinator.pending_terminal->0 is Finish
    }
    &&& coordinator.pending_terminal is Some && coordinator.pending_terminal->0 is Finish
        ==> coordinator.output == OutputState::FinishQueued
    // The order to close is the last command to the child's input writer.
    &&& coordinator.input == InputState::CloseQueued || coordinator.input == InputState::Closed ==> {
        coordinator.pending_child is Some ==> coordinator.pending_child->0 is Eof
    }
    &&& coordinator.pending_child is Some && coordinator.pending_child->0 is Eof
        ==> coordinator.input != InputState::Reading && coordinator.input != InputState::Draining
    // Readers are stopped only when there is no more output.
    &&& coordinator.stopped ==> coordinator.output != OutputState::Reading
}

/// A session that has just begun is consistent.
pub proof fn sessions_begin_consistent<E>(
    mouse: Option<MouseModel>,
    restore_cursor: bool,
    tmux_pointer: bool,
)
    ensures
        is_consistent(CoordinatorModel::<E>::begun(mouse, restore_cursor, tmux_pointer)),
{
}

/// Everything that can happen keeps a session consistent.
pub proof fn sessions_stay_consistent<E>(coordinator: CoordinatorModel<E>, what: Happening<E>)
    requires
        is_consistent(coordinator),
        is_possible(coordinator.prepared(), what),
    ensures
        is_consistent(coordinator.prepared()),
        is_consistent(after(coordinator.prepared(), what)),
{
}

/// Nothing is sent to the terminal behind the closing controls, and they are
/// sent once: after they have been taken, no command is pending any more.
pub proof fn nothing_follows_the_closing<E>(coordinator: CoordinatorModel<E>, what: Happening<E>)
    requires
        is_consistent(coordinator),
        coordinator.output == OutputState::FinishQueued,
        coordinator.pending_terminal is None,
        is_possible(coordinator.prepared(), what),
    ensures
        after(coordinator.prepared(), what).output == OutputState::FinishQueued,
        after(coordinator.prepared(), what).pending_terminal is None,
{
}

/// Nothing is sent to the child behind the order to close its input, and that
/// is sent once.
pub proof fn nothing_follows_the_input_end<E>(
    coordinator: CoordinatorModel<E>,
    what: Happening<E>,
)
    requires
        is_consistent(coordinator),
        coordinator.input == InputState::CloseQueued || coordinator.input == InputState::Closed,
        coordinator.pending_child is None,
        is_possible(coordinator.prepared(), what),
    ensures
        ({
            let next = after(coordinator.prepared(), what);
            &&& next.input == InputState::CloseQueued || next.input == InputState::Closed
            &&& next.pending_child is None
        }),
{
}

/// A command that is pending stays pending until its writer takes it or is
/// gone; nothing else that can happen replaces it.
pub proof fn pending_commands_are_kept<E>(coordinator: CoordinatorModel<E>, what: Happening<E>)
    requires
        is_possible(coordinator.prepared(), what),
    ensures
        ({
            let next = after(coordinator.prepared(), what);
            &&& coordinator.pending_terminal is Some && !(what is TerminalTaken)
                && !(what is TerminalClosed) ==> next.pending_terminal
                == coordinator.pending_terminal
            &&& coordinator.pending_child is Some && !(what is ChildTaken) && !(what is ChildClosed)
                && !(what is Completed && what->Completed_0 == Worker::ChildWriter)
                ==> next.pending_child == coordinator.pending_child
            &&& coordinator.pending_controls is Some && coordinator.pending_terminal is Some
                ==> next.pending_controls == coordinator.pending_controls
        }),
{
}

/// When the output has ended, what is pending for the terminal is followed by
/// the closing controls, whatever the input and the child's input writer do.
pub proof fn closing_follows_the_output<E>(coordinator: CoordinatorModel<E>)
    requires
        coordinator.output == OutputState::Draining,
    ensures
        coordinator.prepared().pending_terminal is Some,
        coordinator.pending_terminal is Some ==> coordinator.prepared().pending_terminal
            == coordinator.pending_terminal,
        coordinator.pending_terminal is None && coordinator.pending_controls is Some
            ==> coordinator.prepared().pending_terminal == Some(
            TerminalOrder::Controls(coordinator.pending_controls->0),
        ),
        coordinator.pending_terminal is None && coordinator.pending_controls is None
            ==> coordinator.prepared().pending_terminal == Some(
            TerminalOrder::Finish(coordinator.closing()),
        ) && coordinator.prepared().output == OutputState::FinishQueued,
        coordinator.prepared().stopped,
{
}

/// The end of the input reaches the child behind all input.
pub proof fn close_follows_the_input<E>(coordinator: CoordinatorModel<E>)
    requires
        coordinator.input == InputState::Draining,
    ensures
        coordinator.pending_child is Some ==> coordinator.prepared().pending_child
            == coordinator.pending_child,
        coordinator.pending_child is None ==> coordinator.prepared().pending_child == Some(
            InputOrder::Eof,
        ) && coordinator.prepared().input == InputState::CloseQueued,
{
}

/// The first error is the one that is reported: nothing that happens replaces
/// it, and it kills the child once.
pub proof fn first_error_is_kept<E>(coordinator: CoordinatorModel<E>, what: Happening<E>)
    requires
        coordinator.error is Some,
    ensures
        after(coordinator.prepared(), what).error == coordinator.error,
        what is Completed && what->Completed_0 != Worker::TerminalWriter
            ==> !coordinator.prepared().aborts(what->Completed_0, what->Completed_1),
{
}

/// The error of any worker ends the session with an error: it is kept, or an
/// earlier one is, or it is the terminal writer's and becomes the session's
/// result.
pub proof fn errors_are_not_masked<E>(coordinator: CoordinatorModel<E>, worker: Worker, error: E)
    ensures
        ({
            let next = coordinator.after_completion(worker, Err(error));
            if worker == Worker::TerminalWriter {
                next.workers.terminal_result == Some(Err::<(), E>(error))
            } else {
                next.error is Some && next.verdict() == Err::<(), E>(
                    if coordinator.error is Some {
                        coordinator.error->0
                    } else {
                        error
                    },
                )
            }
        }),
{
}

/// A writer that does not take its command stops neither the opposite
/// direction nor the workers' notices: whether output is received and sent to
/// the terminal does not depend on what is pending for the child, nor whether
/// input is received and sent to the child on the command that is pending for
/// the terminal.
pub proof fn directions_are_independent<E>(
    coordinator: CoordinatorModel<E>,
    child: Option<InputOrder>,
    terminal: Option<TerminalOrder>,
)
    ensures
        ({
            let other = CoordinatorModel { pending_child: child, ..coordinator };
            &&& coordinator.selection().output == other.selection().output
            &&& coordinator.selection().terminal == other.selection().terminal
            &&& coordinator.selection().resize == other.selection().resize
        }),
        ({
            let other = CoordinatorModel { pending_terminal: terminal, ..coordinator };
            &&& coordinator.selection().input == other.selection().input
            &&& coordinator.selection().child == other.selection().child
        }),
{
}

/// Output that was read before its reader failed still precedes the closing
/// controls: the failure alone does not end the output.
pub proof fn reader_failure_does_not_cut_the_output<E>(
    coordinator: CoordinatorModel<E>,
    error: E,
)
    requires
        !coordinator.workers.disconnected.contains(Worker::OutputReader),
    ensures
        ({
            let next = coordinator.after_completion(Worker::OutputReader, Err(error));
            &&& next.output == coordinator.output
            &&& next.pending_terminal == coordinator.pending_terminal
            &&& next.selection().output == coordinator.selection().output
            // Once its channel is empty and closed, the output ends.
            &&& next.after_disconnect(Worker::OutputReader).output == coordinator.output.closed()
        }),
{
}

/// The session does not end before the closing controls can have been written:
/// it ends only once the terminal writer has given its result, and not while a
/// worker whose channel was found closed still owes its notice.
pub proof fn sessions_end_after_the_terminal_writer<E>(coordinator: CoordinatorModel<E>)
    requires
        coordinator.workers.is_over(),
    ensures
        coordinator.workers.terminal_result is Some,
        forall|worker: Worker| #[trigger]
            coordinator.workers.disconnected.contains(worker)
                ==> coordinator.workers.completed.contains(worker),
{
}

/// Mouse reporting that was enabled in the terminal is disabled at the end,
/// whatever happens in between: the closing controls start with the order to
/// disable it, and nothing that can happen takes that back.
pub proof fn mouse_reporting_is_disabled_at_the_end<E>(
    coordinator: CoordinatorModel<E>,
    bytes: Seq<u8>,
    what: Happening<E>,
)
    requires
        coordinator.mouse is Some,
    ensures
        ({
            let mouse = coordinator.mouse->0;
            let shown = screen::shown(mouse.ops.push(ScreenOp::Feed(bytes)));
            steering::needs_enabling(mouse.ui, shown, bytes)
                ==> coordinator.after_output(bytes).mouse->0.ui.active
        }),
        coordinator.mouse->0.ui.active ==> {
            &&& MOUSE_DISABLE@.is_prefix_of(coordinator.closing())
            &&& after(coordinator.prepared(), what).mouse is Some
            &&& after(coordinator.prepared(), what).mouse->0.ui.active
        },
{
    let mouse = coordinator.mouse->0;
    if mouse.ui.active {
        assert(MOUSE_DISABLE@ =~= coordinator.closing().subrange(0, MOUSE_DISABLE@.len() as int));
    }
    if what is Input {
        mouse_laws::enabling_is_remembered(
            mouse.ui,
            screen::shown(mouse.ops),
            bytes,
            what->Input_0,
        );
    }
}

/// Where the cursor is to be shown at the end, the closing controls end with
/// the order to show it.
pub proof fn cursor_is_shown_at_the_end<E>(coordinator: CoordinatorModel<E>)
    requires
        coordinator.restore_cursor,
    ensures
        CURSOR_SHOW@.is_suffix_of(coordinator.closing()),
{
    let closing = coordinator.closing();
    assert(CURSOR_SHOW@ =~= closing.subrange(
        closing.len() - CURSOR_SHOW@.len(),
        closing.len() as int,
    ));
}

} // verus!
