//! What the terminal writer decides.
//!
//! Commands that are queued already are joined into batches, each of which is
//! flushed once. A failed write is reported once; from then on commands are
//! dropped until the closing controls arrive, which are always attempted.
use vstd::prelude::*;

use crate::session::buffer::{self, OutputBuffer, WriteOp, WriteStep};
use crate::session::{TerminalCommand, TerminalOrder, CHUNK_SIZE, MAX_OUTPUT_BATCH};
use crate::terminal_output::{TerminalModel, TerminalOutput, RECOVERY};

verus! {

/// What has been and is to be written, and what the batch has room for.
#[verifier::ext_equal]
pub struct WriterModel {
    pub terminal: TerminalModel,
    /// The bytes that wait to be written.
    pub waiting: Seq<u8>,
    /// Whether small writes wait for others.
    pub buffered: bool,
    /// How many more commands the batch may take.
    pub left: nat,
    /// How many more bytes the batch may take.
    pub room: nat,
}

/// What a batch has room for after `len` more bytes.
pub open spec fn less(room: nat, len: nat) -> nat {
    if len < room {
        (room - len) as nat
    } else {
        0
    }
}

impl WriterModel {
    /// A new batch. It is one command long where no other is queued, and is
    /// then not buffered.
    pub open spec fn begun(self, queue_empty: bool) -> WriterModel {
        WriterModel {
            buffered: if self.terminal.failed {
                self.buffered
            } else {
                !queue_empty
            },
            left: if queue_empty {
                1
            } else {
                MAX_OUTPUT_BATCH as nat
            },
            room: CHUNK_SIZE as nat,
            ..self
        }
    }

    /// After bytes have been written, through the buffer, and with what is done
    /// to the writer at once.
    pub open spec fn written(self, bytes: Seq<u8>) -> (WriterModel, Seq<WriteStep>) {
        let writes = buffer::buffer_write(self.buffered, self.waiting, bytes);
        (WriterModel { waiting: writes.waiting, ..self }, writes.now)
    }

    /// After a command that writes, and with what is done to the writer at once.
    pub open spec fn after_order(self, order: TerminalOrder) -> (WriterModel, Seq<WriteStep>) {
        let counted = WriterModel {
            left: less(self.left, 1),
            room: less(self.room, order.byte_len()),
            ..self
        };
        match order {
            TerminalOrder::Output { bytes, extra } => {
                let terminal = self.terminal.after_output(bytes);
                let (first, now) = counted.written(bytes);
                let (second, then) = first.written(terminal.released(extra));
                (WriterModel { terminal: terminal.after_extra(extra), ..second }, now + then)
            },
            TerminalOrder::Controls(extra) => {
                let (after, now) = counted.written(self.terminal.released(extra));
                (WriterModel { terminal: self.terminal.after_extra(extra), ..after }, now)
            },
            TerminalOrder::Finish(_) => (self, seq![]),
        }
    }

    /// Whether the batch may take another command.
    pub open spec fn wants_more(self) -> bool {
        self.left > 0 && self.room > 0
    }
}

/// How far the writer has come.
#[verifier::ext_equal]
pub enum WriterPhase {
    /// It waits for a command.
    Waiting,
    /// The bytes of a command are being written. Where `more` is set, the batch
    /// may go on after that.
    Writing { more: bool },
    /// It looks for another command for the batch.
    Looking,
    /// The batch is being flushed. Then this command is next, if there is one.
    Flushing(Option<TerminalOrder>),
    /// The last batch is being flushed. Then these are the closing controls.
    Closing(Seq<u8>),
    /// Nothing is to be done any more.
    Ended,
}

/// The state of the terminal writer.
#[verifier::ext_equal]
pub struct WriterState {
    pub writer: WriterModel,
    pub phase: WriterPhase,
}

/// What the terminal writer is told, as mathematics.
pub enum WriterHappening {
    Received { order: TerminalOrder, queue_empty: bool },
    Next(Option<TerminalOrder>),
    Written { ok: bool, queue_empty: bool },
    Closed,
}

/// What the terminal writer has done, as mathematics.
#[verifier::ext_equal]
pub enum WriterDecision {
    Receive,
    TryReceive,
    Write { now: Seq<WriteStep>, controls: bool },
    Flush(Seq<u8>),
    Close(Seq<u8>),
    Lost,
}

impl WriterModel {
    /// After a failed write. What waits is discarded.
    pub open spec fn failed(self) -> WriterModel {
        WriterModel {
            terminal: TerminalModel { failed: true, ..self.terminal },
            waiting: seq![],
            ..self
        }
    }

    /// With nothing waiting.
    pub open spec fn flushed(self) -> WriterModel {
        WriterModel { waiting: seq![], ..self }
    }

    /// What becomes of a command. After a failed write all are dropped but the
    /// closing controls, before which what waits is flushed.
    pub open spec fn taking(self, order: TerminalOrder) -> (WriterState, WriterDecision) {
        match order {
            TerminalOrder::Finish(bytes) => if self.terminal.failed {
                (
                    WriterState { writer: self, phase: WriterPhase::Ended },
                    WriterDecision::Close(self.terminal.finishing(bytes)),
                )
            } else {
                (
                    WriterState { writer: self.flushed(), phase: WriterPhase::Closing(bytes) },
                    WriterDecision::Flush(self.waiting),
                )
            },
            _ => if self.terminal.failed {
                (
                    WriterState { writer: self, phase: WriterPhase::Waiting },
                    WriterDecision::Receive,
                )
            } else {
                let (after, now) = self.after_order(order);
                (
                    WriterState {
                        writer: after,
                        phase: WriterPhase::Writing { more: after.wants_more() },
                    },
                    WriterDecision::Write { now, controls: order is Controls },
                )
            },
        }
    }

    /// The batch ends: what waits is flushed, and then `next` is taken, if
    /// there is one.
    pub open spec fn ending(self, next: Option<TerminalOrder>) -> (WriterState, WriterDecision) {
        (
            WriterState { writer: self.flushed(), phase: WriterPhase::Flushing(next) },
            WriterDecision::Flush(self.waiting),
        )
    }

    /// After a batch: a command that is left over begins the next one.
    pub open spec fn resuming(self, next: Option<TerminalOrder>, queue_empty: bool) -> (
        WriterState,
        WriterDecision,
    ) {
        match next {
            Some(order) => self.begun(queue_empty).taking(order),
            None => (
                WriterState { writer: self, phase: WriterPhase::Waiting },
                WriterDecision::Receive,
            ),
        }
    }

    /// After a write that did or did not succeed.
    pub open spec fn after_write(self, ok: bool) -> WriterModel {
        if ok {
            self
        } else {
            self.failed()
        }
    }
}

/// What the terminal writer does next. What does not answer its last decision
/// changes nothing.
pub open spec fn decide(state: WriterState, what: WriterHappening) -> (
    WriterState,
    WriterDecision,
) {
    let writer = state.writer;
    match (state.phase, what) {
        (WriterPhase::Waiting, WriterHappening::Received { order, queue_empty }) => {
            writer.begun(queue_empty).taking(order)
        },
        (WriterPhase::Waiting, WriterHappening::Closed) => (
            WriterState { writer, phase: WriterPhase::Ended },
            WriterDecision::Lost,
        ),
        (WriterPhase::Writing { more }, WriterHappening::Written { ok, queue_empty }) => if !ok {
            (
                WriterState { writer: writer.failed(), phase: WriterPhase::Waiting },
                WriterDecision::Receive,
            )
        } else if more {
            (WriterState { writer, phase: WriterPhase::Looking }, WriterDecision::TryReceive)
        } else {
            writer.ending(None)
        },
        (WriterPhase::Looking, WriterHappening::Next(Some(order))) => if order.byte_len()
            <= writer.room {
            writer.taking(order)
        } else {
            writer.ending(Some(order))
        },
        (WriterPhase::Looking, WriterHappening::Next(None)) => writer.ending(None),
        (WriterPhase::Flushing(next), WriterHappening::Written { ok, queue_empty }) => {
            writer.after_write(ok).resuming(next, queue_empty)
        },
        (WriterPhase::Closing(bytes), WriterHappening::Written { ok, queue_empty }) => (
            WriterState { writer: writer.after_write(ok), phase: WriterPhase::Ended },
            WriterDecision::Close(writer.after_write(ok).terminal.finishing(bytes)),
        ),
        _ => (state, WriterDecision::Lost),
    }
}

/// What the terminal writer is told.
#[derive(Debug)]
pub enum WriterEvent {
    /// Answers `Receive`: a command, and whether no other is queued.
    Received { command: TerminalCommand, queue_empty: bool },
    /// Answers `TryReceive`: the next command, if one is queued.
    Next(Option<TerminalCommand>),
    /// Answers `Write` and `Flush`: whether all has been written, and whether
    /// no command is queued.
    Written { ok: bool, queue_empty: bool },
    /// Answers `Receive`: there will be no more commands.
    Closed,
}

impl View for WriterEvent {
    type V = WriterHappening;

    open spec fn view(&self) -> WriterHappening {
        match self {
            WriterEvent::Received { command, queue_empty } => WriterHappening::Received {
                order: command@,
                queue_empty: *queue_empty,
            },
            WriterEvent::Next(Some(command)) => WriterHappening::Next(Some(command@)),
            WriterEvent::Next(None) => WriterHappening::Next(None),
            WriterEvent::Written { ok, queue_empty } => WriterHappening::Written {
                ok: *ok,
                queue_empty: *queue_empty,
            },
            WriterEvent::Closed => WriterHappening::Closed,
        }
    }
}

/// What the terminal writer has done.
#[derive(Debug)]
pub enum WriterAction {
    /// Wait for a command.
    Receive,
    /// Take the next command, if one is queued.
    TryReceive,
    /// Do these, in order. They come of controls, or of output.
    Write { now: Vec<WriteOp>, controls: bool },
    /// Write these, and flush.
    Flush(Vec<u8>),
    /// Write these, flush, and end.
    Close(Vec<u8>),
    /// End: no closing controls will come.
    Lost,
}

impl View for WriterAction {
    type V = WriterDecision;

    open spec fn view(&self) -> WriterDecision {
        match self {
            WriterAction::Receive => WriterDecision::Receive,
            WriterAction::TryReceive => WriterDecision::TryReceive,
            WriterAction::Write { now, controls } => WriterDecision::Write {
                now: buffer::steps_of(now@),
                controls: *controls,
            },
            WriterAction::Flush(bytes) => WriterDecision::Flush(bytes@),
            WriterAction::Close(bytes) => WriterDecision::Close(bytes@),
            WriterAction::Lost => WriterDecision::Lost,
        }
    }
}

enum Phase {
    Waiting,
    Writing { more: bool },
    Looking,
    Flushing(Option<TerminalCommand>),
    Closing(Vec<u8>),
    Ended,
}

impl Phase {
    spec fn model(self) -> WriterPhase {
        match self {
            Phase::Waiting => WriterPhase::Waiting,
            Phase::Writing { more } => WriterPhase::Writing { more },
            Phase::Looking => WriterPhase::Looking,
            Phase::Flushing(Some(command)) => WriterPhase::Flushing(Some(command@)),
            Phase::Flushing(None) => WriterPhase::Flushing(None),
            Phase::Closing(bytes) => WriterPhase::Closing(bytes@),
            Phase::Ended => WriterPhase::Ended,
        }
    }
}

/// The state of the terminal writer.
pub struct TerminalWriter {
    terminal: TerminalOutput,
    buffer: OutputBuffer,
    left: usize,
    room: usize,
    phase: Phase,
}

fn deduct(room: usize, len: usize) -> (left: usize)
    ensures
        left == less(room as nat, len as nat),
{
    if len < room {
        room - len
    } else {
        0
    }
}

impl TerminalWriter {
    spec fn writer(self) -> WriterModel {
        WriterModel {
            terminal: self.terminal@,
            waiting: self.buffer.bytes@,
            buffered: self.buffer.buffered,
            left: self.left as nat,
            room: self.room as nat,
        }
    }

    /// The state, as mathematics.
    pub closed spec fn model(self) -> WriterState {
        WriterState { writer: self.writer(), phase: self.phase.model() }
    }

    /// Creates a writer to which nothing has been written, and which waits for
    /// its first command.
    pub fn new(track_sequences: bool) -> (writer: Self)
        ensures
            writer.model().phase is Waiting,
            writer.model().writer.terminal == (TerminalModel {
                output: if track_sequences {
                    Some(seq![])
                } else {
                    None
                },
                pending: seq![],
                failed: false,
            }),
            writer.model().writer.terminal.at_boundary(),
            writer.model().writer.terminal == TerminalModel::opened(track_sequences),
            writer.model().writer.waiting == Seq::<u8>::empty(),
            !writer.model().writer.buffered,
            writer.model().writer.left == 0,
            writer.model().writer.room == 0,
    {
        TerminalWriter {
            terminal: TerminalOutput::new(track_sequences),
            buffer: OutputBuffer::new(),
            left: 0,
            room: 0,
            phase: Phase::Waiting,
        }
    }

    /// Takes what happened, and says what is to be done next. The first thing
    /// to be done is `Receive`.
    pub fn step(&mut self, event: WriterEvent) -> (action: WriterAction)
        ensures
            (final(self).model(), action@) == decide(old(self).model(), event@),
    {
        let mut phase = Phase::Ended;
        std::mem::swap(&mut phase, &mut self.phase);
        match (phase, event) {
            (Phase::Waiting, WriterEvent::Received { command, queue_empty }) => {
                self.begin(queue_empty);
                self.take(command)
            },
            (Phase::Waiting, WriterEvent::Closed) => WriterAction::Lost,
            (Phase::Writing { more }, WriterEvent::Written { ok, .. }) => {
                if !ok {
                    self.fail();
                    self.phase = Phase::Waiting;
                    WriterAction::Receive
                } else if more {
                    self.phase = Phase::Looking;
                    WriterAction::TryReceive
                } else {
                    self.end_batch(None)
                }
            },
            (Phase::Looking, WriterEvent::Next(Some(command))) => {
                if self.accepts(&command) {
                    self.take(command)
                } else {
                    self.end_batch(Some(command))
                }
            },
            (Phase::Looking, WriterEvent::Next(None)) => self.end_batch(None),
            (Phase::Flushing(next), WriterEvent::Written { ok, queue_empty }) => {
                if !ok {
                    self.fail();
                }
                match next {
                    Some(command) => {
                        self.begin(queue_empty);
                        self.take(command)
                    },
                    None => {
                        self.phase = Phase::Waiting;
                        WriterAction::Receive
                    },
                }
            },
            (Phase::Closing(bytes), WriterEvent::Written { ok, .. }) => {
                if !ok {
                    self.fail();
                }
                WriterAction::Close(self.terminal.finish(&bytes))
            },
            (phase, _) => {
                self.phase = phase;
                WriterAction::Lost
            },
        }
    }

    fn begin(&mut self, queue_empty: bool)
        ensures
            final(self).writer() == old(self).writer().begun(queue_empty),
            final(self).phase == old(self).phase,
    {
        if queue_empty {
            self.left = 1;
        } else {
            self.left = MAX_OUTPUT_BATCH;
        }
        self.room = CHUNK_SIZE;
        if !self.terminal.has_failed() {
            // Avoid copying or another queue receive for an isolated update.
            self.buffer.buffered = !queue_empty;
        }
    }

    fn take(&mut self, command: TerminalCommand) -> (action: WriterAction)
        requires
            old(self).phase is Ended,
        ensures
            (final(self).model(), action@) == old(self).writer().taking(command@),
    {
        let ghost before = self.writer();
        let failed: bool = self.terminal.has_failed();
        let mut now: Vec<WriteOp> = Vec::new();
        assert(buffer::steps_of(now@) =~= seq![]);
        match command {
            TerminalCommand::Finish(bytes) => {
                if failed {
                    return WriterAction::Close(self.terminal.finish(&bytes));
                }
                self.phase = Phase::Closing(bytes);
                WriterAction::Flush(self.buffer.take())
            },
            TerminalCommand::Output { bytes, extra } => {
                if failed {
                    self.phase = Phase::Waiting;
                    return WriterAction::Receive;
                }
                self.count(bytes.len(), extra.len());
                let released = self.terminal.write_child(&bytes, &extra);
                self.buffer.write(&bytes, &mut now);
                self.buffer.write(&released, &mut now);
                proof {
                    let order = TerminalOrder::Output { bytes: bytes@, extra: extra@ };
                    assert(buffer::steps_of(now@) =~= before.after_order(order).1);
                }
                self.phase = Phase::Writing { more: self.left > 0 && self.room > 0 };
                WriterAction::Write { now, controls: false }
            },
            TerminalCommand::Controls(extra) => {
                if failed {
                    self.phase = Phase::Waiting;
                    return WriterAction::Receive;
                }
                self.count(extra.len(), 0);
                let released = self.terminal.write_extra(&extra);
                self.buffer.write(&released, &mut now);
                proof {
                    let order = TerminalOrder::Controls(extra@);
                    assert(buffer::steps_of(now@) =~= before.after_order(order).1);
                }
                self.phase = Phase::Writing { more: self.left > 0 && self.room > 0 };
                WriterAction::Write { now, controls: true }
            },
        }
    }

    fn end_batch(&mut self, next: Option<TerminalCommand>) -> (action: WriterAction)
        ensures
            (final(self).model(), action@) == old(self).writer().ending(
                match next {
                    Some(command) => Some(command@),
                    None => None,
                },
            ),
    {
        self.phase = Phase::Flushing(next);
        WriterAction::Flush(self.buffer.take())
    }

    fn count(&mut self, first: usize, second: usize)
        ensures
            final(self).writer() == (WriterModel {
                left: less(old(self).writer().left, 1),
                room: less(old(self).writer().room, (first + second) as nat),
                ..old(self).writer()
            }),
            final(self).phase == old(self).phase,
    {
        self.left = deduct(self.left, 1);
        self.room = deduct(deduct(self.room, first), second);
    }

    /// Whether the next command still belongs to the batch.
    fn accepts(&self, next: &TerminalCommand) -> (yes: bool)
        ensures
            yes == (next@.byte_len() <= self.writer().room),
    {
        match next {
            TerminalCommand::Output { bytes, extra } => {
                bytes.len() <= self.room && extra.len() <= self.room - bytes.len()
            },
            TerminalCommand::Controls(bytes) => bytes.len() <= self.room,
            TerminalCommand::Finish(bytes) => bytes.len() <= self.room,
        }
    }

    /// Notes that a write has failed. What waits is discarded.
    fn fail(&mut self)
        ensures
            final(self).writer() == old(self).writer().failed(),
            final(self).phase == old(self).phase,
    {
        self.terminal.mark_write_failed();
        let _ = self.buffer.take();
    }
}

/// The bytes that a command writes to the terminal: the child's output as it
/// is, and the controls that are released behind it.
pub open spec fn terminal_bytes(terminal: TerminalModel, order: TerminalOrder) -> Seq<u8> {
    match order {
        TerminalOrder::Output { bytes, extra } => bytes + terminal.after_output(bytes).released(
            extra,
        ),
        TerminalOrder::Controls(extra) => terminal.released(extra),
        TerminalOrder::Finish(_) => seq![],
    }
}

/// Batching changes neither the bytes nor their order: what is written at
/// once, followed by what then waits, is what waited before followed by the
/// bytes of the command. Never more than one chunk waits.
pub proof fn batching_keeps_order(writer: WriterModel, order: TerminalOrder)
    requires
        writer.buffered || writer.waiting.len() == 0,
        writer.waiting.len() <= CHUNK_SIZE,
    ensures
        ({
            let (after, now) = writer.after_order(order);
            &&& buffer::bytes_of(now) + after.waiting == writer.waiting + terminal_bytes(
                writer.terminal,
                order,
            )
            &&& after.buffered || after.waiting.len() == 0
            &&& after.waiting.len() <= CHUNK_SIZE
        }),
{
    let (after, now) = writer.after_order(order);
    match order {
        TerminalOrder::Output { bytes, extra } => {
            let released = writer.terminal.after_output(bytes).released(extra);
            let first = buffer::buffer_write(writer.buffered, writer.waiting, bytes);
            let second = buffer::buffer_write(writer.buffered, first.waiting, released);
            buffer::buffering_keeps_order(writer.buffered, writer.waiting, bytes);
            buffer::buffering_keeps_order(writer.buffered, first.waiting, released);
            buffer::lemma_bytes_of_both(first.now, second.now);
            assert(buffer::bytes_of(now) + after.waiting =~= buffer::bytes_of(first.now) + (
            buffer::bytes_of(second.now) + second.waiting));
            assert(buffer::bytes_of(first.now) + (first.waiting + released) =~= (buffer::bytes_of(
                first.now,
            ) + first.waiting) + released);
            assert((writer.waiting + bytes) + released =~= writer.waiting + terminal_bytes(
                writer.terminal,
                order,
            ));
        },
        TerminalOrder::Controls(extra) => {
            buffer::buffering_keeps_order(
                writer.buffered,
                writer.waiting,
                writer.terminal.released(extra),
            );
        },
        TerminalOrder::Finish(_) => {
            assert(buffer::bytes_of(now) + after.waiting =~= writer.waiting + terminal_bytes(
                writer.terminal,
                order,
            ));
        },
    }
}

/// All that several commands have done to the writer at once.
pub open spec fn all_writes(writer: WriterModel, orders: Seq<TerminalOrder>) -> Seq<WriteStep>
    decreases orders.len(),
{
    if orders.len() == 0 {
        seq![]
    } else {
        all_writes(writer, orders.drop_last()) + after_orders(
            writer,
            orders.drop_last(),
        ).after_order(orders.last()).1
    }
}

/// The bytes that several commands write to the terminal.
pub open spec fn all_bytes(writer: WriterModel, orders: Seq<TerminalOrder>) -> Seq<u8>
    decreases orders.len(),
{
    if orders.len() == 0 {
        seq![]
    } else {
        all_bytes(writer, orders.drop_last()) + terminal_bytes(
            after_orders(writer, orders.drop_last()).terminal,
            orders.last(),
        )
    }
}

/// However many commands are joined, their bytes reach the terminal in order:
/// what has been written, followed by what waits for the flush, is what waited
/// before followed by the bytes of all commands.
pub proof fn batches_keep_order(writer: WriterModel, orders: Seq<TerminalOrder>)
    requires
        writer.buffered || writer.waiting.len() == 0,
        writer.waiting.len() <= CHUNK_SIZE,
    ensures
        ({
            let after = after_orders(writer, orders);
            &&& buffer::bytes_of(all_writes(writer, orders)) + after.waiting == writer.waiting
                + all_bytes(writer, orders)
            &&& after.buffered || after.waiting.len() == 0
            &&& after.waiting.len() <= CHUNK_SIZE
        }),
    decreases orders.len(),
{
    let after = after_orders(writer, orders);
    if orders.len() == 0 {
        assert(buffer::bytes_of(all_writes(writer, orders)) + after.waiting =~= writer.waiting
            + all_bytes(writer, orders));
    } else {
        let shorter = orders.drop_last();
        let before = after_orders(writer, shorter);
        let earlier = all_writes(writer, shorter);
        let now = before.after_order(orders.last()).1;
        let bytes = terminal_bytes(before.terminal, orders.last());
        batches_keep_order(writer, shorter);
        batching_keeps_order(before, orders.last());
        buffer::lemma_bytes_of_both(earlier, now);
        lemma_joined(
            buffer::bytes_of(earlier),
            before.waiting,
            writer.waiting,
            all_bytes(writer, shorter),
            buffer::bytes_of(now),
            after.waiting,
            bytes,
        );
    }
}

/// What is written in two steps, each of which keeps the order.
proof fn lemma_joined(
    first: Seq<u8>,
    between: Seq<u8>,
    start: Seq<u8>,
    before: Seq<u8>,
    second: Seq<u8>,
    end: Seq<u8>,
    bytes: Seq<u8>,
)
    requires
        first + between == start + before,
        second + end == between + bytes,
    ensures
        (first + second) + end == start + (before + bytes),
{
    assert((first + second) + end =~= first + (second + end));
    assert(first + (between + bytes) =~= (first + between) + bytes);
    assert((start + before) + bytes =~= start + (before + bytes));
}

/// A batch is bounded: it takes no more commands than the limit, and goes on
/// only while it holds less than one chunk.
pub proof fn batches_are_bounded(writer: WriterModel, queue_empty: bool, orders: Seq<TerminalOrder>)
    requires
        forall|i: int| 0 <= i < orders.len() ==> !(#[trigger] orders[i] is Finish),
        forall|i: int|
            0 <= i < orders.len() ==> (#[trigger] after_orders(
                writer.begun(queue_empty),
                orders.take(i),
            )).wants_more(),
    ensures
        orders.len() <= MAX_OUTPUT_BATCH,
        queue_empty ==> orders.len() <= 1,
        orders.len() > 0 ==> total_len(orders.drop_last()) < CHUNK_SIZE,
{
    if orders.len() > 0 {
        let shorter = orders.drop_last();
        let last = orders.len() - 1;
        assert(orders.take(last) =~= shorter);
        assert forall|i: int| 0 <= i < shorter.len() implies !(#[trigger] shorter[i] is Finish) by {
            assert(shorter[i] == orders[i]);
        }
        lemma_batch_count(writer.begun(queue_empty), shorter);
        assert(after_orders(writer.begun(queue_empty), orders.take(last)).wants_more());
    }
}

/// The state after several commands.
pub open spec fn after_orders(writer: WriterModel, orders: Seq<TerminalOrder>) -> WriterModel
    decreases orders.len(),
{
    if orders.len() == 0 {
        writer
    } else {
        after_orders(writer, orders.drop_last()).after_order(orders.last()).0
    }
}

/// The number of bytes that several commands bring.
pub open spec fn total_len(orders: Seq<TerminalOrder>) -> nat
    decreases orders.len(),
{
    if orders.len() == 0 {
        0
    } else {
        total_len(orders.drop_last()) + orders.last().byte_len()
    }
}

proof fn lemma_batch_count(writer: WriterModel, orders: Seq<TerminalOrder>)
    requires
        forall|i: int| 0 <= i < orders.len() ==> !(#[trigger] orders[i] is Finish),
    ensures
        after_orders(writer, orders).left == less(writer.left, orders.len()),
        after_orders(writer, orders).room == less(writer.room, total_len(orders)),
    decreases orders.len(),
{
    if orders.len() > 0 {
        let shorter = orders.drop_last();
        assert forall|i: int| 0 <= i < shorter.len() implies !(#[trigger] shorter[i] is Finish) by {
            assert(shorter[i] == orders[i]);
        }
        lemma_batch_count(writer, shorter);
        assert(!(orders[orders.len() - 1] is Finish));
    }
}

/// A failed write is the last one before the closing controls: after it the
/// writer only receives, and drops what it receives, until the closing controls
/// come. They are still written, behind what ends the sequence that the terminal
/// may be in the middle of.
pub proof fn only_the_closing_follows_a_failure(state: WriterState, what: WriterHappening)
    ensures
        ({
            let (next, decision) = decide(state, what);
            let answered = (state.phase is Writing || state.phase is Flushing) && what is Written;
            // A write that fails brings the writer into this state,
            &&& answered && !what->ok ==> has_given_up(next)
            // and nothing brings it out of it.
            &&& has_given_up(state) ==> {
                &&& has_given_up(next)
                &&& decision is Receive || decision is Lost || decision is Close
                &&& decision is Close ==> {
                    &&& what is Received
                    &&& what->order is Finish
                    &&& decision->Close_0 == RECOVERY@ + what->order->Finish_0
                }
            }
        }),
{
}

/// Whether a write has failed and nothing is being written any more.
pub open spec fn has_given_up(state: WriterState) -> bool {
    state.writer.terminal.failed && (state.phase is Waiting || state.phase is Ended)
}

/// The closing controls come behind everything else: before them what waits is
/// flushed, and after them nothing is to be done.
pub proof fn closing_comes_last(state: WriterState, what: WriterHappening)
    ensures
        ({
            let (next, decision) = decide(state, what);
            &&& decision is Close ==> {
                &&& next.phase is Ended
                &&& next.writer.terminal.failed || next.writer.waiting == state.writer.waiting
            }
            &&& next.phase is Closing && !(state.phase is Closing) ==> {
                &&& decision is Flush
                &&& next.writer.waiting.len() == 0
            }
            &&& state.phase is Ended ==> decision is Lost && next == state
        }),
{
}

/// A batch goes on while other commands were queued when it began, it has taken
/// fewer than eight commands, and they brought fewer than 65536 bytes.
pub proof fn batches_go_on(writer: WriterModel, orders: Seq<TerminalOrder>)
    requires
        forall|i: int| 0 <= i < orders.len() ==> !(#[trigger] orders[i] is Finish),
        orders.len() < 8,
        total_len(orders) < 65536,
    ensures
        after_orders(writer.begun(false), orders).wants_more(),
        !writer.terminal.failed ==> writer.begun(false).buffered,
        !writer.terminal.failed ==> !writer.begun(true).buffered,
{
    lemma_batch_room(writer.begun(false), orders);
}

proof fn lemma_batch_room(writer: WriterModel, orders: Seq<TerminalOrder>)
    requires
        forall|i: int| 0 <= i < orders.len() ==> !(#[trigger] orders[i] is Finish),
        orders.len() <= writer.left,
        total_len(orders) <= writer.room,
    ensures
        after_orders(writer, orders).left == writer.left - orders.len(),
        after_orders(writer, orders).room == writer.room - total_len(orders),
    decreases orders.len(),
{
    if orders.len() > 0 {
        let shorter = orders.drop_last();
        assert forall|i: int| 0 <= i < shorter.len() implies !(#[trigger] shorter[i] is Finish) by {
            assert(shorter[i] == orders[i]);
        }
        lemma_batch_room(writer, shorter);
        assert(!(orders[orders.len() - 1] is Finish));
    }
}

/// The closing controls are attempted also where the flush before them fails;
/// then they follow what ends any open sequence. A write of controls is known as
/// one.
pub proof fn the_closing_is_always_attempted(
    writer: WriterModel,
    bytes: Seq<u8>,
    ok: bool,
    queue_empty: bool,
)
    ensures
        ({
            let state = WriterState { writer, phase: WriterPhase::Closing(bytes) };
            let (next, decision) = decide(state, WriterHappening::Written { ok, queue_empty });
            &&& next.phase is Ended
            &&& decision is Close
            &&& !ok ==> decision->Close_0 == seq![0x18u8, 0x1bu8, 0x5cu8, 0x18u8] + bytes
            &&& ok ==> decision->Close_0 == writer.terminal.finishing(bytes)
        }),
        forall|order: TerminalOrder|
            (#[trigger] writer.taking(order)).1 is Write ==> writer.taking(order).1->controls
                == order is Controls,
{
    assert(RECOVERY@ =~= seq![0x18u8, 0x1bu8, 0x5cu8, 0x18u8]);
}

} // verus!
