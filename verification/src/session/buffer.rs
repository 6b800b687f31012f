//! Joining small writes.
use vstd::prelude::*;

use crate::session::CHUNK_SIZE;

verus! {

/// One thing that is done to a writer, as mathematics.
#[verifier::ext_equal]
pub enum WriteStep {
    /// Bytes are written, all of them.
    Bytes(Seq<u8>),
    /// The writer is flushed.
    Flush,
}

/// One thing to be done to a writer.
#[derive(Debug, PartialEq, Eq)]
pub enum WriteOp {
    /// Write these, all of them.
    Bytes(Vec<u8>),
    /// Flush the writer.
    Flush,
}

impl View for WriteOp {
    type V = WriteStep;

    open spec fn view(&self) -> WriteStep {
        match self {
            WriteOp::Bytes(bytes) => WriteStep::Bytes(bytes@),
            WriteOp::Flush => WriteStep::Flush,
        }
    }
}

/// What is done to a writer, in order.
pub open spec fn steps_of(ops: Seq<WriteOp>) -> Seq<WriteStep> {
    ops.map_values(|op: WriteOp| op@)
}

/// The bytes that are written, in order.
pub open spec fn bytes_of(steps: Seq<WriteStep>) -> Seq<u8>
    decreases steps.len(),
{
    if steps.len() == 0 {
        seq![]
    } else {
        bytes_of(steps.drop_last()) + match steps.last() {
            WriteStep::Bytes(bytes) => bytes,
            WriteStep::Flush => seq![],
        }
    }
}

/// The bytes that wait to be written, and what is done to the writer at once.
#[verifier::ext_equal]
pub struct Writes {
    pub waiting: Seq<u8>,
    pub now: Seq<WriteStep>,
}

/// A flush: what waits is written, if anything does, and the writer is flushed.
pub open spec fn flushing(waiting: Seq<u8>) -> Seq<WriteStep> {
    if waiting.len() == 0 {
        seq![WriteStep::Flush]
    } else {
        seq![WriteStep::Bytes(waiting), WriteStep::Flush]
    }
}

/// What a write of `bytes` to a buffer with `waiting` bytes does. Where the
/// two do not fit into one chunk, the buffer is flushed first; what fills a
/// chunk by itself does not wait.
pub open spec fn buffered_write(waiting: Seq<u8>, bytes: Seq<u8>) -> Writes {
    let fits = waiting.len() + bytes.len() <= CHUNK_SIZE;
    let first = if fits {
        seq![]
    } else {
        flushing(waiting)
    };
    let left = if fits {
        waiting
    } else {
        seq![]
    };
    if bytes.len() >= CHUNK_SIZE {
        Writes { waiting: left, now: first.push(WriteStep::Bytes(bytes)) }
    } else {
        Writes { waiting: left + bytes, now: first }
    }
}

/// What a write does, with buffering on or off. Nothing is done for no bytes.
pub open spec fn buffer_write(buffered: bool, waiting: Seq<u8>, bytes: Seq<u8>) -> Writes {
    if bytes.len() == 0 {
        Writes { waiting, now: seq![] }
    } else if buffered {
        buffered_write(waiting, bytes)
    } else {
        Writes { waiting, now: seq![WriteStep::Bytes(bytes)] }
    }
}

/// Bytes on their way to a writer.
///
/// What is handed out to be written is not kept, so a write that fails is
/// never retried.
#[derive(Debug)]
pub struct OutputBuffer {
    /// The bytes that wait to be written.
    pub bytes: Vec<u8>,
    /// Whether small writes wait for others.
    pub buffered: bool,
}

impl OutputBuffer {
    /// Creates an empty buffer, with buffering off.
    pub fn new() -> (buffer: Self)
        ensures
            buffer.bytes@ == Seq::<u8>::empty(),
            !buffer.buffered,
    {
        OutputBuffer { bytes: Vec::new(), buffered: false }
    }

    /// Takes bytes, all of them, and appends to `now` what has to be done to
    /// the writer at once.
    pub fn write(&mut self, bytes: &[u8], now: &mut Vec<WriteOp>)
        ensures
            final(self).buffered == old(self).buffered,
            ({
                let expected = buffer_write(old(self).buffered, old(self).bytes@, bytes@);
                &&& final(self).bytes@ == expected.waiting
                &&& steps_of(final(now)@) == steps_of(old(now)@) + expected.now
            }),
    {
        let ghost before = steps_of(now@);
        let ghost expected = buffer_write(self.buffered, self.bytes@, bytes@);
        if bytes.len() == 0 {
            assert(steps_of(now@) =~= before + expected.now);
            return;
        }
        if !self.buffered {
            now.push(WriteOp::Bytes(vstd::slice::slice_to_vec(bytes)));
            assert(steps_of(now@) =~= before + expected.now);
            return;
        }
        if bytes.len() > CHUNK_SIZE || self.bytes.len() > CHUNK_SIZE - bytes.len() {
            if self.bytes.len() > 0 {
                now.push(WriteOp::Bytes(self.take()));
            }
            now.push(WriteOp::Flush);
        }
        if bytes.len() >= CHUNK_SIZE {
            now.push(WriteOp::Bytes(vstd::slice::slice_to_vec(bytes)));
        } else {
            if self.bytes.len() == 0 {
                self.bytes = Vec::with_capacity(CHUNK_SIZE);
            }
            self.bytes.extend_from_slice(bytes);
        }
        assert(self.bytes@ =~= expected.waiting);
        assert(steps_of(now@) =~= before + expected.now);
    }

    /// Hands out the bytes that wait.
    pub fn take(&mut self) -> (bytes: Vec<u8>)
        ensures
            bytes@ == old(self).bytes@,
            final(self).bytes@ == Seq::<u8>::empty(),
            final(self).buffered == old(self).buffered,
    {
        let mut bytes: Vec<u8> = Vec::new();
        std::mem::swap(&mut bytes, &mut self.bytes);
        bytes
    }
}

/// The bytes of two runs of steps.
pub proof fn lemma_bytes_of_both(a: Seq<WriteStep>, b: Seq<WriteStep>)
    ensures
        bytes_of(a + b) == bytes_of(a) + bytes_of(b),
    decreases b.len(),
{
    if b.len() == 0 {
        assert(a + b =~= a);
        assert(bytes_of(a) + bytes_of(b) =~= bytes_of(a));
    } else {
        lemma_bytes_of_both(a, b.drop_last());
        assert((a + b).drop_last() =~= a + b.drop_last());
        assert(bytes_of(a + b) =~= bytes_of(a) + bytes_of(b));
    }
}

/// One step more.
proof fn lemma_bytes_of_push(steps: Seq<WriteStep>, step: WriteStep)
    ensures
        bytes_of(steps.push(step)) == bytes_of(steps) + match step {
            WriteStep::Bytes(bytes) => bytes,
            WriteStep::Flush => seq![],
        },
{
    assert(steps.push(step).drop_last() =~= steps);
}

/// Buffering changes neither the bytes nor their order, and what waits never
/// exceeds one chunk. Where bytes that wait are written to make room, the
/// writer is flushed behind them.
pub proof fn buffering_keeps_order(buffered: bool, waiting: Seq<u8>, bytes: Seq<u8>)
    requires
        buffered || waiting.len() == 0,
        waiting.len() <= CHUNK_SIZE,
    ensures
        ({
            let after = buffer_write(buffered, waiting, bytes);
            &&& bytes_of(after.now) + after.waiting == waiting + bytes
            &&& after.waiting.len() <= CHUNK_SIZE
            &&& !buffered ==> after.waiting.len() == 0
            &&& waiting.len() > 0 && after.now.len() > 0 ==> after.now.len() >= 2 && after.now[1]
                == WriteStep::Flush
        }),
{
    let after = buffer_write(buffered, waiting, bytes);
    let none = Seq::<WriteStep>::empty();
    lemma_bytes_of_push(none, WriteStep::Bytes(bytes));
    lemma_bytes_of_push(none, WriteStep::Bytes(waiting));
    lemma_bytes_of_push(none, WriteStep::Flush);
    lemma_bytes_of_push(none.push(WriteStep::Bytes(waiting)), WriteStep::Flush);
    assert(seq![WriteStep::Bytes(bytes)] =~= none.push(WriteStep::Bytes(bytes)));
    assert(seq![WriteStep::Flush] =~= none.push(WriteStep::Flush));
    assert(seq![WriteStep::Bytes(waiting), WriteStep::Flush] =~= none.push(
        WriteStep::Bytes(waiting),
    ).push(WriteStep::Flush));
    lemma_bytes_of_push(flushing(waiting), WriteStep::Bytes(bytes));
    assert(bytes_of(flushing(waiting)) =~= waiting);
    assert(bytes_of(after.now) + after.waiting =~= waiting + bytes);
}

/// With buffering on, writes that fit into one chunk of 65536 bytes together
/// wait, and nothing is done to the writer. A write that does not fit behind
/// what waits has that written and the writer flushed; it then waits itself,
/// unless it fills a chunk. With buffering off nothing waits.
pub proof fn small_writes_wait(waiting: Seq<u8>, bytes: Seq<u8>)
    requires
        bytes.len() > 0,
    ensures
        ({
            let after = buffer_write(true, waiting, bytes);
            let fits = waiting.len() + bytes.len() <= 65536;
            &&& fits && bytes.len() < 65536 ==> after.now.len() == 0 && after.waiting == waiting
                + bytes
            &&& !fits ==> after.now.contains(WriteStep::Flush)
            &&& !fits && bytes.len() < 65536 ==> after.waiting == bytes
            &&& bytes.len() >= 65536 ==> after.now.len() > 0 && after.now.last()
                == WriteStep::Bytes(bytes)
        }),
        buffer_write(false, seq![], bytes).now == seq![WriteStep::Bytes(bytes)],
{
    let after = buffer_write(true, waiting, bytes);
    if waiting.len() + bytes.len() > 65536 {
        let at = if waiting.len() == 0 {
            0int
        } else {
            1int
        };
        assert(after.now[at] == WriteStep::Flush);
        assert(Seq::<u8>::empty() + bytes =~= bytes);
    }
}

} // verus!
