//! What the readers decide.
use std::borrow::Cow;
use vstd::prelude::*;

use crate::filters::{model, Filter, FilterChain};
use crate::session::CHUNK_SIZE;
use crate::views;

verus! {

/// What became of a read.
pub enum ReadResult<'a> {
    /// Some bytes, at least one.
    Data(&'a [u8]),
    Eof,
    /// Nothing was read, but something may be later.
    Interrupted,
    Failed,
}

/// What a reader does next.
pub enum ReadStep {
    /// It sends these, in order, and reads on.
    Send(Vec<Vec<u8>>),
    /// It sends these, in order, and then that there is no more.
    SendLast(Vec<Vec<u8>>),
    /// It reads on.
    ReadOn,
    /// It ends with an error.
    Fail,
}

/// Output in chunks of the size that is sent at once; nothing for no bytes.
pub open spec fn chunks_of(bytes: Seq<u8>) -> Seq<Seq<u8>>
    decreases bytes.len(),
{
    if bytes.len() == 0 {
        seq![]
    } else if bytes.len() <= CHUNK_SIZE {
        seq![bytes]
    } else {
        seq![bytes.take(CHUNK_SIZE as int)] + chunks_of(bytes.skip(CHUNK_SIZE as int))
    }
}

/// Cuts output into chunks.
pub fn output_chunks(bytes: Vec<u8>) -> (chunks: Vec<Vec<u8>>)
    ensures
        views::contents(chunks@) == chunks_of(bytes@),
{
    let mut chunks: Vec<Vec<u8>> = Vec::new();
    let mut rest: Vec<u8> = bytes;
    assert(views::contents(chunks@) + chunks_of(rest@) =~= chunks_of(bytes@));
    while rest.len() > CHUNK_SIZE
        invariant
            views::contents(chunks@) + chunks_of(rest@) == chunks_of(bytes@),
        decreases rest@.len(),
    {
        let ghost sent = views::contents(chunks@);
        let ghost whole = rest@;
        let tail = rest.split_off(CHUNK_SIZE);
        chunks.push(rest);
        rest = tail;
        proof {
            assert(rest@ =~= whole.skip(CHUNK_SIZE as int));
            assert(views::contents(chunks@) =~= sent.push(whole.take(CHUNK_SIZE as int)));
            assert(sent.push(whole.take(CHUNK_SIZE as int)) + chunks_of(rest@) =~= sent + (seq![
                whole.take(CHUNK_SIZE as int),
            ] + chunks_of(rest@)));
        }
    }
    let ghost sent = views::contents(chunks@);
    if rest.len() > 0 {
        chunks.push(rest);
    }
    assert(views::contents(chunks@) =~= sent + chunks_of(rest@));
    chunks
}

/// What the output reader does with a read: what was read is filtered, and at
/// the end what the filters held back is sent too.
pub fn read_output_step<'a>(filters: &mut FilterChain, read: ReadResult<'a>) -> (step: ReadStep)
    ensures
        match read {
            ReadResult::Data(data) => {
                let call = seq![model::Call::Chunk(data@)];
                &&& step is Send
                &&& views::contents(step->Send_0@) == chunks_of(old(filters).reply(call))
                &&& forall|later: Seq<model::Call>|
                    later.len() > 0 ==> #[trigger] final(filters).reply(later) == old(
                        filters,
                    ).reply(call + later)
            },
            ReadResult::Eof => {
                &&& step is SendLast
                &&& views::contents(step->SendLast_0@) == chunks_of(
                    old(filters).reply(seq![model::Call::Finish]),
                )
            },
            ReadResult::Interrupted => step is ReadOn && *final(filters) == *old(filters),
            ReadResult::Failed => step is Fail && *final(filters) == *old(filters),
        },
        choice_of(step) == choice_after(read),
        sent_by(step) == output_sent(|calls: Seq<model::Call>| old(filters).reply(calls), read),
{
    match read {
        ReadResult::Data(data) => {
            let bytes = match filters.filter(data) {
                Cow::Borrowed(bytes) => vstd::slice::slice_to_vec(bytes),
                Cow::Owned(bytes) => bytes,
            };
            ReadStep::Send(output_chunks(bytes))
        },
        ReadResult::Eof => ReadStep::SendLast(output_chunks(filters.finish())),
        ReadResult::Interrupted => ReadStep::ReadOn,
        ReadResult::Failed => ReadStep::Fail,
    }
}

/// What the input reader does with a read: input is sent as it was read.
pub fn read_input_step<'a>(read: ReadResult<'a>) -> (step: ReadStep)
    ensures
        match read {
            ReadResult::Data(data) => step is Send && views::contents(step->Send_0@) == seq![
                data@,
            ],
            ReadResult::Eof => step is SendLast && step->SendLast_0@.len() == 0,
            ReadResult::Interrupted => step is ReadOn,
            ReadResult::Failed => step is Fail,
        },
        choice_of(step) == choice_after(read),
        sent_by(step) == input_sent(read),
{
    match read {
        ReadResult::Data(data) => {
            let mut chunks: Vec<Vec<u8>> = Vec::new();
            chunks.push(vstd::slice::slice_to_vec(data));
            assert(views::contents(chunks@) =~= seq![data@]);
            ReadStep::Send(chunks)
        },
        ReadResult::Eof => ReadStep::SendLast(Vec::new()),
        ReadResult::Interrupted => ReadStep::ReadOn,
        ReadResult::Failed => ReadStep::Fail,
    }
}

/// The chunks hold all bytes, in order; none is empty or too large.
pub proof fn chunks_hold_everything(bytes: Seq<u8>)
    ensures
        model::concat(chunks_of(bytes)) == bytes,
        forall|i: int|
            0 <= i < chunks_of(bytes).len() ==> 0 < (#[trigger] chunks_of(bytes)[i]).len()
                <= CHUNK_SIZE,
    decreases bytes.len(),
{
    let chunks = chunks_of(bytes);
    if bytes.len() == 0 {
        assert(model::concat(chunks) =~= bytes);
    } else if bytes.len() <= CHUNK_SIZE {
        assert(chunks.drop_last() =~= seq![]);
        assert(model::concat(chunks.drop_last()) =~= seq![]);
        assert(model::concat(chunks) =~= bytes);
    } else {
        let first = bytes.take(CHUNK_SIZE as int);
        let rest = bytes.skip(CHUNK_SIZE as int);
        chunks_hold_everything(rest);
        model::lemma_concat_first(first, chunks_of(rest));
        assert(first + rest =~= bytes);
    }
}

/// Every chunk but the last holds 65536 bytes; up to that many bytes are one
/// chunk.
pub proof fn chunks_are_full(bytes: Seq<u8>)
    ensures
        forall|i: int|
            0 <= i < chunks_of(bytes).len() - 1 ==> (#[trigger] chunks_of(bytes)[i]).len()
                == 65536,
        0 < bytes.len() <= 65536 ==> chunks_of(bytes) == seq![bytes],
    decreases bytes.len(),
{
    if bytes.len() > CHUNK_SIZE {
        let rest = bytes.skip(CHUNK_SIZE as int);
        let chunks = chunks_of(bytes);
        chunks_are_full(rest);
        assert forall|i: int| 0 <= i < chunks.len() - 1 implies (#[trigger] chunks[i]).len()
            == 65536 by {
            if i > 0 {
                assert(chunks[i] == chunks_of(rest)[i - 1]);
            }
        }
    }
}

/// What a reader does next, without what it sends.
pub enum ReadChoice {
    Send,
    SendLast,
    ReadOn,
    Fail,
}

/// What a reader does after a read.
pub open spec fn choice_after<'a>(read: ReadResult<'a>) -> ReadChoice {
    match read {
        ReadResult::Data(_) => ReadChoice::Send,
        ReadResult::Eof => ReadChoice::SendLast,
        ReadResult::Interrupted => ReadChoice::ReadOn,
        ReadResult::Failed => ReadChoice::Fail,
    }
}

/// Which of these a step is.
pub open spec fn choice_of(step: ReadStep) -> ReadChoice {
    match step {
        ReadStep::Send(_) => ReadChoice::Send,
        ReadStep::SendLast(_) => ReadChoice::SendLast,
        ReadStep::ReadOn => ReadChoice::ReadOn,
        ReadStep::Fail => ReadChoice::Fail,
    }
}

/// A reader reads on after data and after an interruption, and after nothing
/// else: the end of the stream is the last thing that it sends, and only a
/// failed read is an error.
pub proof fn readers_read_on<'a>(read: ReadResult<'a>)
    ensures
        (choice_after(read) is Send || choice_after(read) is ReadOn) == (read is Data
            || read is Interrupted),
        choice_after(read) is SendLast == read is Eof,
        choice_after(read) is Fail == read is Failed,
        choice_after(read) is Send == read is Data,
{
}

/// The chunks that a step sends, in order.
pub open spec fn sent_by(step: ReadStep) -> Seq<Seq<u8>> {
    match step {
        ReadStep::Send(chunks) => views::contents(chunks@),
        ReadStep::SendLast(chunks) => views::contents(chunks@),
        _ => seq![],
    }
}

/// What the output reader sends after a read, with the given filters.
pub open spec fn output_sent<'a>(filters: model::Behaviour, read: ReadResult<'a>) -> Seq<Seq<u8>> {
    match read {
        ReadResult::Data(data) => chunks_of(filters(seq![model::Call::Chunk(data@)])),
        ReadResult::Eof => chunks_of(filters(seq![model::Call::Finish])),
        _ => seq![],
    }
}

/// What the input reader sends after a read.
pub open spec fn input_sent<'a>(read: ReadResult<'a>) -> Seq<Seq<u8>> {
    match read {
        ReadResult::Data(data) => seq![data@],
        _ => seq![],
    }
}

/// The output reader sends everything that the filters make of a read, and at
/// the end everything that they still hold back; the input reader sends
/// everything that was read. A read that gave nothing sends nothing.
pub proof fn readers_send_everything<'a>(filters: model::Behaviour, read: ReadResult<'a>)
    ensures
        model::concat(output_sent(filters, read)) == match read {
            ReadResult::Data(data) => filters(seq![model::Call::Chunk(data@)]),
            ReadResult::Eof => filters(seq![model::Call::Finish]),
            _ => seq![],
        },
        model::concat(input_sent(read)) == match read {
            ReadResult::Data(data) => data@,
            _ => seq![],
        },
{
    match read {
        ReadResult::Data(data) => {
            chunks_hold_everything(filters(seq![model::Call::Chunk(data@)]));
            assert(seq![data@].drop_last() =~= seq![]);
            assert(model::concat(seq![data@].drop_last()) =~= seq![]);
            assert(model::concat(seq![data@]) =~= data@);
        },
        ReadResult::Eof => {
            chunks_hold_everything(filters(seq![model::Call::Finish]));
        },
        _ => {},
    }
}

} // verus!
