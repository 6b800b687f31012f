//! Nothing that is read is lost on its way.
use vstd::prelude::*;

use crate::codex_mouse_ui::key_laws;
use crate::codex_mouse_ui::screen::ScreenOp;
use crate::codex_mouse_ui::steering::UiModel;
use crate::codex_mouse_ui::{screen, steering};
use crate::filters::pieces;
use crate::session::buffer;
use crate::session::coordinator::{CoordinatorModel, InputState, MouseModel, OutputState};
use crate::session::laws::{self, Happening};
use crate::session::terminal_writer::{
    self, WriterDecision, WriterHappening, WriterModel, WriterPhase, WriterState,
};
use crate::session::workers::{Worker, WorkersModel};
use crate::session::{InputOrder, TerminalOrder, CHUNK_SIZE, CURSOR_SHOW};
use crate::terminal_output::{self, TerminalModel};

verus! {

/// The bytes that a command brings to the child.
pub open spec fn child_bytes(order: Option<InputOrder>) -> Seq<u8> {
    match order {
        Some(InputOrder::Data(bytes)) => bytes,
        _ => seq![],
    }
}

/// The bytes of some controls.
pub open spec fn control_bytes(controls: Option<Seq<u8>>) -> Seq<u8> {
    match controls {
        Some(bytes) => bytes,
        None => seq![],
    }
}

/// Input is conserved: what the mouse handling returns for the child waits for
/// the child, and what it returns for the terminal waits for the terminal, each
/// whether or not there is any of the other. Without mouse handling all input
/// waits for the child. Nothing else changes.
pub proof fn input_is_conserved<E>(coordinator: CoordinatorModel<E>, bytes: Seq<u8>)
    requires
        coordinator.pending_child is None,
        coordinator.pending_controls is None,
    ensures
        ({
            let next = coordinator.after_input(bytes);
            let handled = steering::input_run(
                coordinator.mouse->0.ui,
                screen::shown(coordinator.mouse->0.ops),
                bytes,
            );
            &&& coordinator.mouse is Some ==> {
                &&& child_bytes(next.pending_child) == handled.to_child
                &&& control_bytes(next.pending_controls) == handled.to_term
                &&& next.mouse == Some(
                    MouseModel { ops: coordinator.mouse->0.ops, ui: handled.ui },
                )
            }
            &&& coordinator.mouse is None ==> {
                &&& child_bytes(next.pending_child) == bytes
                &&& next.pending_controls is None
                &&& next.mouse is None
            }
            &&& next.pending_child != Some(InputOrder::Eof)
            &&& next == (CoordinatorModel {
                mouse: next.mouse,
                pending_child: next.pending_child,
                pending_controls: next.pending_controls,
                ..coordinator
            })
        }),
{
    let next = coordinator.after_input(bytes);
    match coordinator.mouse {
        Some(mouse) => {
            let handled = steering::input_run(mouse.ui, screen::shown(mouse.ops), bytes);
            if handled.to_child.len() == 0 {
                assert(handled.to_child =~= seq![]);
            }
            if handled.to_term.len() == 0 {
                assert(handled.to_term =~= seq![]);
            }
        },
        None => {
            if bytes.len() == 0 {
                assert(bytes =~= seq![]);
            }
        },
    }
}

/// At the end of the input what was held back of it waits for the child, and
/// then nothing is held back.
pub proof fn held_input_is_conserved<E>(coordinator: CoordinatorModel<E>)
    requires
        coordinator.pending_child is None,
        coordinator.input == InputState::Reading,
    ensures
        ({
            let next = coordinator.after_input_end();
            &&& next.input == InputState::Draining
            &&& match coordinator.mouse {
                Some(mouse) => {
                    &&& child_bytes(next.pending_child) == mouse.ui.pending
                    &&& next.mouse == Some(
                        MouseModel {
                            ops: mouse.ops,
                            ui: UiModel { pending: seq![], ..mouse.ui },
                        },
                    )
                },
                None => next.pending_child is None && next.mouse is None,
            }
            &&& next.pending_child != Some(InputOrder::Eof)
            &&& next == (CoordinatorModel {
                mouse: next.mouse,
                pending_child: next.pending_child,
                input: next.input,
                ..coordinator
            })
        }),
{
    if coordinator.mouse is Some && coordinator.mouse->0.ui.pending.len() == 0 {
        assert(coordinator.mouse->0.ui.pending =~= seq![]);
    }
}

/// Output is conserved: all of it waits for the terminal, with the controls
/// that the mouse handling adds behind it, and the screen model is told all of
/// it. Nothing that waits for the child or as controls is touched.
pub proof fn output_is_conserved<E>(coordinator: CoordinatorModel<E>, bytes: Seq<u8>)
    ensures
        ({
            let next = coordinator.after_output(bytes);
            &&& next.pending_terminal is Some
            &&& next.pending_terminal->0 is Output
            &&& next.pending_terminal->0->Output_bytes == bytes
            &&& match coordinator.mouse {
                Some(mouse) => {
                    let ops = mouse.ops.push(ScreenOp::Feed(bytes));
                    let handled = steering::output_step(mouse.ui, screen::shown(ops), bytes);
                    &&& next.pending_terminal->0->extra == handled.to_term
                    &&& next.mouse == Some(MouseModel { ops, ui: handled.ui })
                },
                None => {
                    &&& next.pending_terminal->0->extra == Seq::<u8>::empty()
                    &&& next.mouse is None
                },
            }
            &&& next == (CoordinatorModel {
                mouse: next.mouse,
                pending_terminal: next.pending_terminal,
                ..coordinator
            })
        }),
{
}

/// Controls that wait are the terminal's next command as soon as it has none,
/// and they wait no longer. Without them it gets none before the output ends.
pub proof fn controls_are_sent<E>(coordinator: CoordinatorModel<E>)
    requires
        coordinator.pending_terminal is None,
    ensures
        ({
            let next = coordinator.prepared();
            &&& coordinator.pending_controls is Some ==> {
                &&& next.pending_terminal == Some(
                    TerminalOrder::Controls(coordinator.pending_controls->0),
                )
                &&& next.pending_controls is None
            }
            &&& coordinator.pending_controls is None && coordinator.output
                == OutputState::Reading ==> next.pending_terminal is None
        }),
{
}

/// What happens in a session, one thing after the other.
pub open spec fn after_all<E>(
    coordinator: CoordinatorModel<E>,
    happenings: Seq<Happening<E>>,
) -> CoordinatorModel<E>
    decreases happenings.len(),
{
    if happenings.len() == 0 {
        coordinator
    } else {
        laws::after(
            after_all(coordinator, happenings.drop_last()).prepared(),
            happenings.last(),
        )
    }
}

/// Whether all of it can happen, and the child's input writer goes on.
pub open spec fn can_all_happen<E>(
    coordinator: CoordinatorModel<E>,
    happenings: Seq<Happening<E>>,
) -> bool
    decreases happenings.len(),
{
    happenings.len() > 0 ==> {
        let before = after_all(coordinator, happenings.drop_last()).prepared();
        &&& can_all_happen(coordinator, happenings.drop_last())
        &&& laws::is_possible(before, happenings.last())
        &&& !(happenings.last() is ChildClosed)
        &&& happenings.last() is Completed ==> happenings.last()->Completed_0
            != Worker::ChildWriter
        &&& !(happenings.last() is TerminalClosed)
    }
}

/// All input, in order.
pub open spec fn all_input<E>(happenings: Seq<Happening<E>>) -> Seq<u8>
    decreases happenings.len(),
{
    if happenings.len() == 0 {
        seq![]
    } else {
        all_input(happenings.drop_last()) + match happenings.last() {
            Happening::Input(bytes) => bytes,
            _ => seq![],
        }
    }
}

/// All that the child's input writer has taken, in order.
pub open spec fn all_taken_by_child<E>(
    coordinator: CoordinatorModel<E>,
    happenings: Seq<Happening<E>>,
) -> Seq<u8>
    decreases happenings.len(),
{
    if happenings.len() == 0 {
        seq![]
    } else {
        let before = after_all(coordinator, happenings.drop_last()).prepared();
        all_taken_by_child(coordinator, happenings.drop_last()) + match happenings.last() {
            Happening::ChildTaken => child_bytes(before.pending_child),
            _ => seq![],
        }
    }
}

/// All output, in order.
pub open spec fn all_output<E>(happenings: Seq<Happening<E>>) -> Seq<u8>
    decreases happenings.len(),
{
    if happenings.len() == 0 {
        seq![]
    } else {
        all_output(happenings.drop_last()) + match happenings.last() {
            Happening::Output(bytes) => bytes,
            _ => seq![],
        }
    }
}

/// The bytes of the child's output that a command brings to the terminal.
pub open spec fn output_bytes(order: Option<TerminalOrder>) -> Seq<u8> {
    match order {
        Some(TerminalOrder::Output { bytes, .. }) => bytes,
        _ => seq![],
    }
}

/// All output of the child that the terminal writer has taken, in order.
pub open spec fn all_taken_by_terminal<E>(
    coordinator: CoordinatorModel<E>,
    happenings: Seq<Happening<E>>,
) -> Seq<u8>
    decreases happenings.len(),
{
    if happenings.len() == 0 {
        seq![]
    } else {
        let before = after_all(coordinator, happenings.drop_last()).prepared();
        all_taken_by_terminal(coordinator, happenings.drop_last()) + match happenings.last() {
            Happening::TerminalTaken => output_bytes(before.pending_terminal),
            _ => seq![],
        }
    }
}

/// Without mouse handling a session relays all input: whatever happens, in
/// whatever order, the child's input writer has taken, with what waits for it,
/// exactly the input that was read, in order.
pub proof fn sessions_relay_all_input<E>(
    coordinator: CoordinatorModel<E>,
    happenings: Seq<Happening<E>>,
)
    requires
        coordinator.mouse is None,
        child_bytes(coordinator.pending_child) == Seq::<u8>::empty(),
        can_all_happen(coordinator, happenings),
    ensures
        after_all(coordinator, happenings).mouse is None,
        all_taken_by_child(coordinator, happenings) + child_bytes(
            after_all(coordinator, happenings).pending_child,
        ) == all_input(happenings),
    decreases happenings.len(),
{
    let none = Seq::<u8>::empty();
    let now = after_all(coordinator, happenings);
    if happenings.len() > 0 {
        let earlier = happenings.drop_last();
        let what = happenings.last();
        sessions_relay_all_input(coordinator, earlier);
        let state = after_all(coordinator, earlier);
        let before = state.prepared();
        let taken = all_taken_by_child(coordinator, earlier);
        assert(child_bytes(before.pending_child) == child_bytes(state.pending_child));
        if what is Input {
            input_is_conserved(before, what->Input_0);
            assert(child_bytes(before.pending_child) =~= none);
            assert(taken + none =~= taken);
        } else if what is ChildTaken {
            assert(child_bytes(now.pending_child) == none);
        } else {
            assert(child_bytes(now.pending_child) == child_bytes(before.pending_child));
        }
        assert(all_taken_by_child(coordinator, happenings) + child_bytes(now.pending_child)
            =~= all_input(happenings));
    } else {
        assert(all_taken_by_child(coordinator, happenings) + child_bytes(now.pending_child)
            =~= all_input(happenings));
    }
}

/// A session relays all output: whatever happens, in whatever order, the
/// terminal writer has taken, with what waits for it, exactly the output that
/// was read, in order.
pub proof fn sessions_relay_all_output<E>(
    coordinator: CoordinatorModel<E>,
    happenings: Seq<Happening<E>>,
)
    requires
        output_bytes(coordinator.pending_terminal) == Seq::<u8>::empty(),
        can_all_happen(coordinator, happenings),
    ensures
        all_taken_by_terminal(coordinator, happenings) + output_bytes(
            after_all(coordinator, happenings).pending_terminal,
        ) == all_output(happenings),
    decreases happenings.len(),
{
    let none = Seq::<u8>::empty();
    let now = after_all(coordinator, happenings);
    if happenings.len() > 0 {
        let earlier = happenings.drop_last();
        let what = happenings.last();
        sessions_relay_all_output(coordinator, earlier);
        let state = after_all(coordinator, earlier);
        let before = state.prepared();
        let taken = all_taken_by_terminal(coordinator, earlier);
        assert(output_bytes(before.pending_terminal) == output_bytes(state.pending_terminal));
        if what is Output {
            output_is_conserved(before, what->Output_0);
            assert(output_bytes(before.pending_terminal) =~= none);
            assert(taken + none =~= taken);
        } else if what is TerminalTaken {
            assert(output_bytes(now.pending_terminal) == none);
        } else {
            assert(output_bytes(now.pending_terminal) == output_bytes(before.pending_terminal));
        }
        assert(all_taken_by_terminal(coordinator, happenings) + output_bytes(now.pending_terminal)
            =~= all_output(happenings));
    } else {
        assert(all_taken_by_terminal(coordinator, happenings) + output_bytes(now.pending_terminal)
            =~= all_output(happenings));
    }
}

/// The coordinator waits for whatever it can take and for every writer that has
/// a command: output while there may be more and none waits for the terminal,
/// input while there may be more and nothing that it led to waits, and changes
/// of size while there may be output.
pub proof fn everything_is_waited_for<E>(coordinator: CoordinatorModel<E>)
    ensures
        ({
            let selection = coordinator.selection();
            let gone = coordinator.workers.disconnected;
            &&& coordinator.pending_child is Some ==> selection.child && !selection.input
            &&& coordinator.pending_child is None ==> !selection.child
            &&& coordinator.pending_terminal is Some ==> !selection.output && (selection.terminal
                || gone.contains(Worker::TerminalWriter))
            &&& coordinator.pending_terminal is None ==> !selection.terminal
            &&& coordinator.pending_controls is Some ==> !selection.input
            &&& coordinator.output == OutputState::Reading && coordinator.pending_terminal is None
                ==> selection.output || gone.contains(Worker::OutputReader)
            &&& coordinator.output != OutputState::Reading ==> !selection.output
                && !selection.resize
            &&& coordinator.output == OutputState::Reading ==> selection.resize
                == !coordinator.resize_closed
            &&& coordinator.input == InputState::Reading && coordinator.pending_child is None
                && coordinator.pending_controls is None ==> selection.input
            &&& coordinator.input != InputState::Reading ==> !selection.input
            &&& selection.stop == coordinator.stopped
        }),
{
}

/// The notice of a worker that ended well changes nothing but that it has
/// ended, except that nothing more can be sent to the child when its writer has
/// ended, and that output ends when its reader has ended and its channel is
/// closed. It never kills the child.
pub proof fn workers_that_end_well_change_little<E>(
    coordinator: CoordinatorModel<E>,
    worker: Worker,
)
    ensures
        ({
            let next = coordinator.after_completion(worker, Ok(()));
            let writes = worker == Worker::ChildWriter;
            let reads = worker == Worker::OutputReader
                && coordinator.workers.disconnected.contains(worker)
                && coordinator.output == OutputState::Reading;
            &&& next == (CoordinatorModel {
                pending_child: if writes {
                    None
                } else {
                    coordinator.pending_child
                },
                input: if writes {
                    InputState::Closed
                } else {
                    coordinator.input
                },
                output: if reads {
                    OutputState::Draining
                } else {
                    coordinator.output
                },
                workers: WorkersModel {
                    disconnected: coordinator.workers.disconnected,
                    completed: coordinator.workers.completed.insert(worker),
                    terminal_result: if worker == Worker::TerminalWriter {
                        Some(Ok(()))
                    } else {
                        coordinator.workers.terminal_result
                    },
                },
                ..coordinator
            })
            &&& !coordinator.aborts(worker, Ok(()))
        }),
{
}

/// The first error of a worker kills the child and is kept. Unless the output
/// can still be read, it ends the output, so that the session comes to its end.
pub proof fn workers_that_fail_end_the_session<E>(
    coordinator: CoordinatorModel<E>,
    worker: Worker,
    error: E,
)
    requires
        coordinator.error is None,
    ensures
        ({
            let next = coordinator.after_completion(worker, Err(error));
            &&& coordinator.aborts(worker, Err(error))
            &&& worker != Worker::TerminalWriter ==> next.error == Some(error)
            &&& worker != Worker::TerminalWriter && worker != Worker::OutputReader ==> next.output
                != OutputState::Reading
            &&& worker == Worker::OutputReader && coordinator.workers.disconnected.contains(worker)
                ==> next.output != OutputState::Reading
            &&& next.pending_terminal == coordinator.pending_terminal
            &&& next.pending_controls == coordinator.pending_controls
            &&& next.workers.completed == coordinator.workers.completed.insert(worker)
        }),
{
}

/// A channel that is found closed is remembered. Input ends with its reader's
/// channel, and output with its reader's once the reader has ended; to a child
/// whose channel is closed nothing more is sent.
pub proof fn closed_channels_end_their_streams<E>(
    coordinator: CoordinatorModel<E>,
    worker: Worker,
)
    ensures
        ({
            let next = coordinator.after_disconnect(worker);
            &&& next.workers.disconnected == coordinator.workers.disconnected.insert(worker)
            &&& next.workers.completed == coordinator.workers.completed
            &&& next.input == if worker == Worker::ChildWriter {
                InputState::Closed
            } else if worker == Worker::InputReader && coordinator.input == InputState::Reading {
                InputState::Draining
            } else {
                coordinator.input
            }
            &&& next.output == if worker == Worker::OutputReader
                && coordinator.workers.completed.contains(worker) && coordinator.output
                == OutputState::Reading {
                OutputState::Draining
            } else {
                coordinator.output
            }
            &&& next == (CoordinatorModel {
                input: next.input,
                output: next.output,
                workers: next.workers,
                ..coordinator
            })
        }),
{
}

/// What the closing controls hold: with mouse reporting on, the order to
/// disable it and the pointer's default shape; and then, where it was asked for
/// and independently of that, the order to show the cursor. Nothing else.
pub proof fn closing_controls_restore_the_terminal<E>(coordinator: CoordinatorModel<E>)
    ensures
        ({
            let closing = coordinator.closing();
            let quiet = CoordinatorModel { restore_cursor: false, ..coordinator };
            let show = pieces::written_csi(seq!['?' as u8, '2' as u8, '5' as u8], 'h' as u8);
            let disable = key_laws::mouse_mode_sequence(true, false)
                + key_laws::mouse_mode_sequence(false, false);
            &&& closing == if coordinator.restore_cursor {
                quiet.closing() + show
            } else {
                quiet.closing()
            }
            &&& coordinator.mouse is None || !coordinator.mouse->0.ui.active ==> quiet.closing()
                == Seq::<u8>::empty()
            &&& coordinator.mouse is Some && coordinator.mouse->0.ui.active ==> {
                &&& disable.is_prefix_of(quiet.closing())
                &&& key_laws::gives_shape(
                    quiet.closing().skip(disable.len() as int),
                    coordinator.tmux_pointer,
                    false,
                )
            }
        }),
{
    let closing = coordinator.closing();
    let quiet = (CoordinatorModel { restore_cursor: false, ..coordinator }).closing();
    let show = pieces::written_csi(seq!['?' as u8, '2' as u8, '5' as u8], 'h' as u8);
    let disable = key_laws::mouse_mode_sequence(true, false) + key_laws::mouse_mode_sequence(
        false,
        false,
    );
    assert(CURSOR_SHOW@ =~= show);
    key_laws::disabling_undoes_enabling();
    if coordinator.mouse is Some && coordinator.mouse->0.ui.active {
        let ui = UiModel {
            pointer: true,
            tmux_pointer: coordinator.tmux_pointer,
            ..coordinator.mouse->0.ui
        };
        let update = steering::pointer_update(ui, false);
        key_laws::lemma_pointer_update(ui, false);
        assert(quiet =~= disable + update);
        assert(quiet.skip(disable.len() as int) =~= update);
        assert(disable =~= quiet.subrange(0, disable.len() as int));
        assert(closing =~= if coordinator.restore_cursor {
            quiet + show
        } else {
            quiet
        });
    } else {
        assert(quiet =~= seq![]);
        assert(closing =~= if coordinator.restore_cursor {
            quiet + show
        } else {
            quiet
        });
    }
}

/// All bytes of a command to the terminal writer.
pub open spec fn content(order: TerminalOrder) -> Seq<u8> {
    match order {
        TerminalOrder::Output { bytes, extra } => bytes + extra,
        TerminalOrder::Controls(bytes) => bytes,
        TerminalOrder::Finish(bytes) => bytes,
    }
}

/// What the terminal writer has in hand and has not written: what waits, then
/// the command that is next.
pub open spec fn in_hand(state: WriterState) -> Seq<u8> {
    state.writer.waiting + match state.phase {
        WriterPhase::Flushing(Some(order)) => content(order),
        WriterPhase::Closing(bytes) => bytes,
        _ => seq![],
    }
}

/// Whether what happens answers the writer's last decision, and no write fails.
pub open spec fn goes_well(state: WriterState, what: WriterHappening) -> bool {
    match state.phase {
        WriterPhase::Waiting => what is Received,
        WriterPhase::Looking => what is Next,
        WriterPhase::Ended => false,
        _ => what is Written && what->ok,
    }
}

/// The bytes that arrive with it.
pub open spec fn arriving(what: WriterHappening) -> Seq<u8> {
    match what {
        WriterHappening::Received { order, .. } => content(order),
        WriterHappening::Next(Some(order)) => content(order),
        _ => seq![],
    }
}

/// The bytes that a decision writes.
pub open spec fn writing(decision: WriterDecision) -> Seq<u8> {
    match decision {
        WriterDecision::Write { now, .. } => buffer::bytes_of(now),
        WriterDecision::Flush(bytes) => bytes,
        WriterDecision::Close(bytes) => bytes,
        _ => seq![],
    }
}

/// What holds of a terminal writer that does not track sequences, and of which
/// no write has failed: nothing waits where it waits for a command itself, nor
/// while it flushes.
pub open spec fn is_in_order(state: WriterState) -> bool {
    &&& state.writer.terminal.output is None
    &&& state.writer.terminal.pending.len() == 0
    &&& !state.writer.terminal.failed
    &&& state.writer.waiting.len() <= CHUNK_SIZE
    &&& state.writer.buffered || state.writer.waiting.len() == 0
    &&& !(state.phase is Writing) && !(state.phase is Looking) ==> state.writer.waiting.len() == 0
}

/// The terminal writer loses nothing and reorders nothing: with each thing that
/// happens, what it writes and what it then has in hand is what it had in hand
/// before and what arrived. When it waits for a command, everything has been
/// written.
pub proof fn everything_is_written(state: WriterState, what: WriterHappening)
    requires
        is_in_order(state),
        goes_well(state, what),
    ensures
        ({
            let (next, decision) = terminal_writer::decide(state, what);
            &&& writing(decision) + in_hand(next) == in_hand(state) + arriving(what)
            &&& is_in_order(next)
            &&& next.phase is Waiting ==> in_hand(next) == Seq::<u8>::empty()
            &&& decision is Close ==> next.phase is Ended && in_hand(next) == Seq::<u8>::empty()
        }),
{
    let (next, decision) = terminal_writer::decide(state, what);
    let none = Seq::<u8>::empty();
    let taken: Option<TerminalOrder> = match (state.phase, what) {
        (WriterPhase::Waiting, WriterHappening::Received { order, .. }) => Some(order),
        (WriterPhase::Looking, WriterHappening::Next(Some(order))) => Some(order),
        (WriterPhase::Flushing(order), _) => order,
        _ => None,
    };
    if taken is Some {
        let order = taken->0;
        let begun = match what {
            WriterHappening::Received { queue_empty, .. } => state.writer.begun(queue_empty),
            WriterHappening::Written { queue_empty, .. } => state.writer.begun(queue_empty),
            _ => state.writer,
        };
        terminal_writer::batching_keeps_order(begun, order);
        let bytes = terminal_writer::terminal_bytes(begun.terminal, order);
        assert(state.writer.terminal.pending =~= none);
        if !(order is Finish) {
            assert(bytes =~= content(order));
        }
        assert(none + content(order) =~= content(order));
    }
    assert(state.writer.terminal.pending =~= none);
    assert(writing(decision) + in_hand(next) =~= in_hand(state) + arriving(what));
}

/// A session is over exactly when the terminal writer has given its result and
/// no worker whose channel was found closed owes its notice. It then ends with
/// the first error of another worker, or else as the terminal writer did.
pub proof fn sessions_end_when_all_is_known<E>(coordinator: CoordinatorModel<E>)
    ensures
        coordinator.workers.is_over() <==> coordinator.workers.terminal_result is Some && forall|
            worker: Worker,
        |
            coordinator.workers.disconnected.contains(worker)
                ==> #[trigger] coordinator.workers.completed.contains(worker),
        coordinator.error is Some ==> coordinator.verdict() == Err::<(), E>(coordinator.error->0),
        coordinator.error is None && coordinator.workers.terminal_result is Some
            ==> coordinator.verdict() == coordinator.workers.terminal_result->0,
{
}

/// A session begins with nothing pending and no error, and waits for output,
/// for input and for changes of the size.
pub proof fn sessions_begin_by_waiting<E>(
    mouse: Option<MouseModel>,
    restore_cursor: bool,
    tmux_pointer: bool,
)
    ensures
        ({
            let begun = CoordinatorModel::<E>::begun(mouse, restore_cursor, tmux_pointer);
            let selection = begun.prepared().selection();
            &&& begun.prepared() == begun
            &&& begun.mouse == mouse
            &&& begun.restore_cursor == restore_cursor
            &&& begun.tmux_pointer == tmux_pointer
            &&& begun.error is None
            &&& !begun.workers.is_over()
            &&& selection.output && selection.input && selection.resize
            &&& !selection.terminal && !selection.child && !selection.stop
        }),
{
}

/// A change of the terminal's size is told to the screen model and changes
/// nothing else.
pub proof fn sizes_reach_the_screen<E>(coordinator: CoordinatorModel<E>, rows: u16, cols: u16)
    ensures
        ({
            let next = coordinator.after_resize(rows, cols);
            &&& coordinator.mouse is None ==> next == coordinator
            &&& coordinator.mouse is Some ==> {
                &&& next.mouse is Some
                &&& next.mouse->0.ops == coordinator.mouse->0.ops.push(
                    ScreenOp::Resize { rows, cols },
                )
                &&& next.mouse->0.ui == coordinator.mouse->0.ui
                &&& next == (CoordinatorModel { mouse: next.mouse, ..coordinator })
            }
        }),
{
}

/// With the end of the output the readers are told to stop and no more input is
/// taken; before it neither happens.
pub proof fn input_stops_with_the_output<E>(coordinator: CoordinatorModel<E>)
    ensures
        ({
            let next = coordinator.prepared();
            &&& coordinator.output != OutputState::Reading ==> {
                &&& next.stopped
                &&& next.input != InputState::Reading
                &&& !next.selection().input
            }
            &&& coordinator.output == OutputState::Reading ==> {
                &&& next.stopped == coordinator.stopped
                &&& next.output == OutputState::Reading
                &&& coordinator.input == InputState::Reading ==> next.input == InputState::Reading
            }
            &&& next.mouse == coordinator.mouse
            &&& next.error == coordinator.error
            &&& next.workers == coordinator.workers
        }),
{
}

/// A command counts with all its bytes.
pub proof fn commands_count_with_all_bytes(order: TerminalOrder)
    ensures
        order.byte_len() == content(order).len(),
{
}

/// The controls that are written when the child sends `bytes` and `extra` joins
/// those that wait: all of them, or none inside a sequence.
pub open spec fn released_by(terminal: TerminalModel, bytes: Seq<u8>, extra: Seq<u8>) -> Seq<u8> {
    if terminal.output is Some && !terminal_output::ground_after(terminal.output->0 + bytes) {
        seq![]
    } else {
        terminal.pending + extra
    }
}

/// Whether a state of the terminal's output follows another then: all output is
/// tracked, and what is not written of the controls waits.
pub open spec fn follows_with(
    before: TerminalModel,
    bytes: Seq<u8>,
    extra: Seq<u8>,
    after: TerminalModel,
) -> bool {
    &&& after.failed == before.failed
    &&& match before.output {
        Some(output) => after.output == Some(output + bytes),
        None => after.output is None,
    }
    &&& released_by(before, bytes, extra) + after.pending == before.pending + extra
}

/// Whether a command is taken: its bytes are written or wait, behind what
/// waited, and the terminal's output follows.
pub open spec fn takes(
    before: WriterModel,
    order: TerminalOrder,
    after: WriterModel,
    written: Seq<u8>,
) -> bool {
    match order {
        TerminalOrder::Output { bytes, extra } => {
            &&& written + after.waiting == before.waiting + (bytes + released_by(
                before.terminal,
                bytes,
                extra,
            ))
            &&& follows_with(before.terminal, bytes, extra, after.terminal)
        },
        TerminalOrder::Controls(extra) => {
            &&& written + after.waiting == before.waiting + released_by(
                before.terminal,
                seq![],
                extra,
            )
            &&& follows_with(before.terminal, seq![], extra, after.terminal)
        },
        TerminalOrder::Finish(_) => false,
    }
}

/// A command is taken whole when it is the writer's turn, whether or not the
/// child's sequences are tracked.
proof fn lemma_takes(writer: WriterModel, order: TerminalOrder)
    requires
        writer.buffered || writer.waiting.len() == 0,
        writer.waiting.len() <= CHUNK_SIZE,
        !(order is Finish),
        !writer.terminal.failed,
    ensures
        takes(writer, order, writer.taking(order).0.writer, writing(writer.taking(order).1)),
{
    terminal_writer::batching_keeps_order(writer, order);
    let (after, now) = writer.after_order(order);
    let none = Seq::<u8>::empty();
    let (bytes, extra) = match order {
        TerminalOrder::Output { bytes, extra } => (bytes, extra),
        TerminalOrder::Controls(extra) => (none, extra),
        TerminalOrder::Finish(_) => (none, none),
    };
    if writer.terminal.output is Some {
        assert(writer.terminal.output->0 + none =~= writer.terminal.output->0);
    }
    let pending = writer.terminal.pending + extra;
    assert(pending + none =~= pending);
    assert(none + pending =~= pending);
    assert(follows_with(writer.terminal, bytes, extra, after.terminal));
}

/// Each command is taken whole, at once or after the batch before it has been
/// flushed; nothing is dropped in between, whether or not the child's sequences
/// are tracked. The closing controls come behind a flush of everything else.
pub proof fn commands_are_taken_or_kept(state: WriterState, what: WriterHappening)
    requires
        state.writer.buffered || state.writer.waiting.len() == 0,
        state.writer.waiting.len() <= CHUNK_SIZE,
        !(state.phase is Writing) && !(state.phase is Looking) ==> state.writer.waiting.len() == 0,
        !state.writer.terminal.failed,
        goes_well(state, what),
    ensures
        ({
            let (next, decision) = terminal_writer::decide(state, what);
            let order = match (state.phase, what) {
                (WriterPhase::Waiting, WriterHappening::Received { order, .. }) => Some(order),
                (WriterPhase::Looking, WriterHappening::Next(next)) => next,
                (WriterPhase::Flushing(next), _) => next,
                _ => None,
            };
            &&& match order {
                Some(TerminalOrder::Finish(bytes)) => {
                    // Where it would make the batch too large, it is kept for the next.
                    ||| next.phase == WriterPhase::Closing(bytes) && decision
                        == WriterDecision::Flush(state.writer.waiting)
                    ||| state.phase is Looking && next.phase == WriterPhase::Flushing(order)
                        && decision == WriterDecision::Flush(state.writer.waiting)
                },
                Some(order) => {
                    ||| takes(state.writer, order, next.writer, writing(decision))
                    ||| {
                        &&& state.phase is Looking
                        &&& content(order).len() > state.writer.room
                        &&& next.phase == WriterPhase::Flushing(Some(order))
                        &&& decision == WriterDecision::Flush(state.writer.waiting)
                        &&& next.writer.terminal == state.writer.terminal
                        &&& next.writer.waiting.len() == 0
                    }
                },
                None => {
                    &&& state.phase !is Closing ==> writing(decision) + next.writer.waiting
                        == state.writer.waiting
                    &&& next.writer.terminal == state.writer.terminal
                },
            }
            &&& state.phase is Closing ==> decision == WriterDecision::Close(
                state.writer.terminal.finishing(state.phase->Closing_0),
            )
        }),
{
    let (next, decision) = terminal_writer::decide(state, what);
    let none = Seq::<u8>::empty();
    let order: Option<TerminalOrder> = match (state.phase, what) {
        (WriterPhase::Waiting, WriterHappening::Received { order, .. }) => Some(order),
        (WriterPhase::Looking, WriterHappening::Next(next)) => next,
        (WriterPhase::Flushing(next), _) => next,
        _ => None,
    };
    assert(none + state.writer.waiting =~= state.writer.waiting);
    assert(state.writer.waiting + none =~= state.writer.waiting);
    if order is Some && !(order->0 is Finish) {
        let begun = match what {
            WriterHappening::Received { queue_empty, .. } => state.writer.begun(queue_empty),
            WriterHappening::Written { queue_empty, .. } => state.writer.begun(queue_empty),
            _ => state.writer,
        };
        commands_count_with_all_bytes(order->0);
        if decision is Write {
            lemma_takes(begun, order->0);
            assert(takes(state.writer, order->0, next.writer, writing(decision)));
        }
    }
}

/// A worker that failed and one that ended well leave the same, but for the
/// error and for the end of the output that it brings about, or for the result
/// of the terminal writer.
pub proof fn failures_differ_by_the_error_only<E>(
    coordinator: CoordinatorModel<E>,
    worker: Worker,
    error: E,
)
    ensures
        ({
            let well = coordinator.after_completion(worker, Ok(()));
            let next = coordinator.after_completion(worker, Err(error));
            let writes = worker == Worker::TerminalWriter;
            let reads = worker == Worker::OutputReader;
            next == (CoordinatorModel {
                error: if writes || coordinator.error is Some {
                    coordinator.error
                } else {
                    Some(error)
                },
                output: if writes || reads || well.output != OutputState::Reading {
                    well.output
                } else {
                    OutputState::Draining
                },
                workers: WorkersModel {
                    terminal_result: if writes {
                        Some(Err(error))
                    } else {
                        well.workers.terminal_result
                    },
                    ..well.workers
                },
                ..well
            })
        }),
{
}

/// The end of the output is noted once, and touches nothing that is pending.
pub proof fn the_end_of_output_is_noted<E>(coordinator: CoordinatorModel<E>)
    ensures
        coordinator.after_output_end() == (CoordinatorModel {
            output: if coordinator.output == OutputState::Reading {
                OutputState::Draining
            } else {
                coordinator.output
            },
            ..coordinator
        }),
        coordinator.after_output_end().after_output_end() == coordinator.after_output_end(),
{
}

} // verus!
