//! What a byte filter does, as mathematics.
use vstd::prelude::*;

verus! {

/// One call made on a filter.
#[verifier::ext_equal]
pub enum Call {
    /// `filter`, with the chunk it is handed.
    Chunk(Seq<u8>),
    /// `finish`.
    Finish,
}

/// How a filter treats one byte: from the bytes that it holds back and the
/// next byte to the bytes that it holds back after that and those it lets out.
pub type ByteStep = spec_fn(Seq<u8>, u8) -> (Seq<u8>, Seq<u8>);

/// The bytes that are held back, and those that have been let out, once
/// `data` has been taken byte by byte, with `held` held back at the start.
pub open spec fn feed(step: ByteStep, held: Seq<u8>, data: Seq<u8>) -> (Seq<u8>, Seq<u8>)
    decreases data.len(),
{
    if data.len() == 0 {
        (held, seq![])
    } else {
        let before = feed(step, held, data.drop_last());
        let last = step(before.0, data.last());
        (last.0, before.1 + last.1)
    }
}

/// What one call leaves held back, and what it returns. `finish` returns what
/// is held back and holds back nothing.
pub open spec fn answer(step: ByteStep, held: Seq<u8>, call: Call) -> (Seq<u8>, Seq<u8>) {
    match call {
        Call::Chunk(data) => feed(step, held, data),
        Call::Finish => (seq![], held),
    }
}

/// What the calls, made in order, leave held back, and what the last of them
/// returns.
pub open spec fn answers(step: ByteStep, held: Seq<u8>, calls: Seq<Call>) -> (Seq<u8>, Seq<u8>)
    decreases calls.len(),
{
    if calls.len() == 0 {
        (held, seq![])
    } else if calls.len() == 1 {
        answer(step, held, calls[0])
    } else {
        answers(step, answer(step, held, calls[0]).0, calls.drop_first())
    }
}

/// One more byte.
pub proof fn lemma_feed_push(step: ByteStep, held: Seq<u8>, data: Seq<u8>, byte: u8)
    ensures
        ({
            let before = feed(step, held, data);
            let last = step(before.0, byte);
            feed(step, held, data.push(byte)) == (last.0, before.1 + last.1)
        }),
{
    assert(data.push(byte).drop_last() =~= data);
}

/// Chunks may be cut anywhere: taking `a` and then `b` lets out what taking
/// them as one chunk lets out, and holds back the same bytes.
pub proof fn lemma_feed_concat(step: ByteStep, held: Seq<u8>, a: Seq<u8>, b: Seq<u8>)
    ensures
        ({
            let first = feed(step, held, a);
            let second = feed(step, first.0, b);
            feed(step, held, a + b) == (second.0, first.1 + second.1)
        }),
    decreases b.len(),
{
    if b.len() == 0 {
        assert(a + b =~= a);
        assert(feed(step, held, a).1 + Seq::<u8>::empty() =~= feed(step, held, a).1);
    } else {
        lemma_feed_concat(step, held, a, b.drop_last());
        assert((a + b).drop_last() =~= a + b.drop_last());
        let first = feed(step, held, a);
        let second = feed(step, first.0, b.drop_last());
        let last = step(second.0, b.last());
        assert((first.1 + second.1) + last.1 =~= first.1 + (second.1 + last.1));
    }
}

/// A step that holds back nothing on bytes other than `mark` copies data
/// without `mark`.
pub proof fn lemma_feed_copies(step: ByteStep, mark: u8, data: Seq<u8>)
    requires
        forall|byte: u8| byte != mark ==> #[trigger] step(seq![], byte) == (Seq::<u8>::empty(), seq![byte]),
        forall|i: int| 0 <= i < data.len() ==> data[i] != mark,
    ensures
        feed(step, seq![], data) == (Seq::<u8>::empty(), data),
    decreases data.len(),
{
    if data.len() > 0 {
        lemma_feed_copies(step, mark, data.drop_last());
        assert(data.drop_last() + seq![data.last()] =~= data);
    } else {
        assert(data =~= seq![]);
    }
}

/// A step that holds back every byte of `data` up to `len` holds back those
/// bytes.
pub proof fn lemma_feed_holds(step: ByteStep, data: Seq<u8>, len: int)
    requires
        0 <= len <= data.len(),
        forall|i: int|
            0 <= i < len ==> step(data.take(i), #[trigger] data[i]) == (
                data.take(i + 1),
                Seq::<u8>::empty(),
            ),
    ensures
        feed(step, seq![], data.take(len)) == (data.take(len), Seq::<u8>::empty()),
    decreases len,
{
    let taken = data.take(len);
    if len == 0 {
        assert(taken =~= seq![]);
    } else {
        lemma_feed_holds(step, data, len - 1);
        assert(taken.drop_last() =~= data.take(len - 1));
        assert(Seq::<u8>::empty() + Seq::<u8>::empty() =~= Seq::<u8>::empty());
    }
}

/// The first of several calls settles what the later ones find held back.
pub proof fn lemma_answers(step: ByteStep, held: Seq<u8>, call: Call)
    ensures
        answers(step, held, seq![call]) == answer(step, held, call),
        forall|later: Seq<Call>|
            later.len() > 0 ==> #[trigger] answers(step, held, seq![call] + later) == answers(
                step,
                answer(step, held, call).0,
                later,
            ),
{
    assert forall|later: Seq<Call>| later.len() > 0 implies #[trigger] answers(
        step,
        held,
        seq![call] + later,
    ) == answers(step, answer(step, held, call).0, later) by {
        let calls = seq![call] + later;
        assert(calls.drop_first() =~= later);
    }
}

/// The parts, one after the other.
pub open spec fn concat(parts: Seq<Seq<u8>>) -> Seq<u8>
    decreases parts.len(),
{
    if parts.len() == 0 {
        seq![]
    } else {
        concat(parts.drop_last()) + parts.last()
    }
}

/// One part more in front.
pub proof fn lemma_concat_first(first: Seq<u8>, rest: Seq<Seq<u8>>)
    ensures
        concat(seq![first] + rest) == first + concat(rest),
    decreases rest.len(),
{
    let parts = seq![first] + rest;
    if rest.len() == 0 {
        assert(parts.drop_last() =~= seq![]);
        assert(concat(parts.drop_last()) =~= seq![]);
        assert(concat(parts) =~= first + concat(rest));
    } else {
        lemma_concat_first(first, rest.drop_last());
        assert(parts.drop_last() =~= seq![first] + rest.drop_last());
        assert(parts.last() == rest.last());
        assert(concat(parts) =~= first + concat(rest));
    }
}

/// A stream of units, each of which leaves nothing held back, is filtered
/// unit by unit; a tail that is held back whole stays behind.
pub proof fn lemma_feed_units(
    step: ByteStep,
    units: Seq<Seq<u8>>,
    outs: Seq<Seq<u8>>,
    tail: Seq<u8>,
)
    requires
        units.len() == outs.len(),
        forall|i: int|
            0 <= i < units.len() ==> feed(step, seq![], #[trigger] units[i]) == (
                Seq::<u8>::empty(),
                outs[i],
            ),
        feed(step, seq![], tail) == (tail, Seq::<u8>::empty()),
    ensures
        feed(step, seq![], concat(units) + tail) == (tail, concat(outs)),
    decreases units.len(),
{
    let none = Seq::<u8>::empty();
    if units.len() > 0 {
        let last = units.len() - 1;
        assert forall|i: int| 0 <= i < last implies feed(
            step,
            seq![],
            #[trigger] units.drop_last()[i],
        ) == (none, outs.drop_last()[i]) by {
            assert(units.drop_last()[i] == units[i]);
        }
        assert(feed(step, seq![], none) == (none, none));
        lemma_feed_units(step, units.drop_last(), outs.drop_last(), none);
        assert(concat(units.drop_last()) + none =~= concat(units.drop_last()));
        lemma_feed_concat(step, seq![], concat(units.drop_last()), units.last());
        assert(units[last] == units.last() && outs[last] == outs.last());
    }
    lemma_feed_concat(step, seq![], concat(units), tail);
    assert(concat(outs) + none =~= concat(outs));
}

/// What can be seen of a filter: what the last of some calls returns.
pub type Behaviour = spec_fn(Seq<Call>) -> Seq<u8>;

/// Everything that `calls` return, in order.
pub open spec fn outputs(filter: Behaviour, calls: Seq<Call>) -> Seq<u8>
    decreases calls.len(),
{
    if calls.len() == 0 {
        seq![]
    } else {
        outputs(filter, calls.drop_last()) + filter(calls)
    }
}

/// The calls that hand over a whole stream in the given chunks.
pub open spec fn whole_stream(chunks: Seq<Seq<u8>>) -> Seq<Call> {
    chunks.map_values(|chunk: Seq<u8>| Call::Chunk(chunk)).push(Call::Finish)
}

/// Whether what `filter` makes of a stream does not depend on where the
/// stream is cut into chunks.
pub open spec fn ignores_cuts(filter: Behaviour) -> bool {
    forall|a: Seq<Seq<u8>>, b: Seq<Seq<u8>>|
        concat(a) == concat(b) ==> #[trigger] outputs(filter, whole_stream(a))
            == #[trigger] outputs(filter, whole_stream(b))
}

/// What can be seen of a filter that goes by `step`.
pub open spec fn step_behaviour(step: ByteStep, held: Seq<u8>) -> Behaviour {
    |calls: Seq<Call>| answers(step, held, calls).1
}

proof fn lemma_answers_last(step: ByteStep, held: Seq<u8>, calls: Seq<Call>, call: Call)
    ensures
        answers(step, held, calls.push(call)) == answer(
            step,
            answers(step, held, calls).0,
            call,
        ),
    decreases calls.len(),
{
    let all = calls.push(call);
    if calls.len() > 0 {
        assert(all.drop_first() =~= calls.drop_first().push(call));
        lemma_answers_last(step, answer(step, held, calls[0]).0, calls.drop_first(), call);
        if calls.len() == 1 {
            assert(calls.drop_first() =~= seq![]);
        }
    }
}

proof fn lemma_step_outputs(step: ByteStep, held: Seq<u8>, chunks: Seq<Seq<u8>>)
    ensures
        ({
            let calls = chunks.map_values(|chunk: Seq<u8>| Call::Chunk(chunk));
            (answers(step, held, calls).0, outputs(step_behaviour(step, held), calls)) == feed(
                step,
                held,
                concat(chunks),
            )
        }),
    decreases chunks.len(),
{
    let calls = chunks.map_values(|chunk: Seq<u8>| Call::Chunk(chunk));
    if chunks.len() > 0 {
        let before = chunks.drop_last().map_values(|chunk: Seq<u8>| Call::Chunk(chunk));
        assert(calls.drop_last() =~= before);
        assert(calls =~= before.push(Call::Chunk(chunks.last())));
        lemma_step_outputs(step, held, chunks.drop_last());
        lemma_answers_last(step, held, before, Call::Chunk(chunks.last()));
        lemma_feed_concat(step, held, concat(chunks.drop_last()), chunks.last());
    }
}

/// Chunks may be cut anywhere: what a filter that goes byte by byte makes of a
/// whole stream is what it makes of the stream in one chunk, followed by what
/// that leaves held back.
pub proof fn steps_ignore_cuts(step: ByteStep, held: Seq<u8>)
    ensures
        ignores_cuts(step_behaviour(step, held)),
        forall|chunks: Seq<Seq<u8>>| #[trigger]
            outputs(step_behaviour(step, held), whole_stream(chunks)) == feed(
                step,
                held,
                concat(chunks),
            ).1 + feed(step, held, concat(chunks)).0,
{
    assert forall|chunks: Seq<Seq<u8>>| #[trigger]
        outputs(step_behaviour(step, held), whole_stream(chunks)) == feed(
            step,
            held,
            concat(chunks),
        ).1 + feed(step, held, concat(chunks)).0 by {
        let calls = chunks.map_values(|chunk: Seq<u8>| Call::Chunk(chunk));
        lemma_step_outputs(step, held, chunks);
        lemma_answers_last(step, held, calls, Call::Finish);
        assert(whole_stream(chunks).drop_last() =~= calls);
    }
}

/// Whether `part` is what is left of `whole` when some of its bytes are
/// removed.
pub open spec fn is_subsequence(part: Seq<u8>, whole: Seq<u8>) -> bool
    decreases whole.len(),
{
    ||| part.len() == 0
    ||| {
        &&& whole.len() > 0
        &&& {
            ||| part.last() == whole.last() && is_subsequence(part.drop_last(), whole.drop_last())
            ||| is_subsequence(part, whole.drop_last())
        }
    }
}

pub proof fn lemma_subsequence_of_itself(bytes: Seq<u8>)
    ensures
        is_subsequence(bytes, bytes),
    decreases bytes.len(),
{
    if bytes.len() > 0 {
        lemma_subsequence_of_itself(bytes.drop_last());
    }
}

pub proof fn lemma_subsequence_concat(a: Seq<u8>, x: Seq<u8>, b: Seq<u8>, y: Seq<u8>)
    requires
        is_subsequence(a, x),
        is_subsequence(b, y),
    ensures
        is_subsequence(a + b, x + y),
    decreases y.len(),
{
    let part = a + b;
    let whole = x + y;
    if y.len() == 0 {
        assert(part =~= a);
        assert(whole =~= x);
    } else {
        assert(whole.drop_last() =~= x + y.drop_last());
        assert(whole.last() == y.last());
        if b.len() == 0 {
            lemma_subsequence_concat(a, x, b, y.drop_last());
        } else {
            assert(part.last() == b.last());
            if b.last() == y.last() && is_subsequence(b.drop_last(), y.drop_last()) {
                lemma_subsequence_concat(a, x, b.drop_last(), y.drop_last());
                assert(part.drop_last() =~= a + b.drop_last());
            } else {
                lemma_subsequence_concat(a, x, b, y.drop_last());
            }
        }
    }
}

pub proof fn lemma_subsequence_of_subsequence(a: Seq<u8>, b: Seq<u8>, c: Seq<u8>)
    requires
        is_subsequence(a, b),
        is_subsequence(b, c),
    ensures
        is_subsequence(a, c),
    decreases c.len(),
{
    if a.len() > 0 {
        if b.last() == c.last() && is_subsequence(b.drop_last(), c.drop_last()) {
            if a.last() == b.last() && is_subsequence(a.drop_last(), b.drop_last()) {
                lemma_subsequence_of_subsequence(a.drop_last(), b.drop_last(), c.drop_last());
            } else {
                lemma_subsequence_of_subsequence(a, b.drop_last(), c.drop_last());
            }
        } else {
            lemma_subsequence_of_subsequence(a, b, c.drop_last());
        }
    }
}

/// A property of what is held back that every step keeps always holds.
pub proof fn lemma_feed_keeps(
    step: ByteStep,
    kept: spec_fn(Seq<u8>) -> bool,
    held: Seq<u8>,
    data: Seq<u8>,
)
    requires
        kept(held),
        forall|h: Seq<u8>, byte: u8| kept(h) ==> kept((#[trigger] step(h, byte)).0),
    ensures
        kept(feed(step, held, data).0),
    decreases data.len(),
{
    if data.len() > 0 {
        lemma_feed_keeps(step, kept, held, data.drop_last());
        let before = feed(step, held, data.drop_last());
        assert(kept(step(before.0, data.last()).0));
    }
}

/// If every step only removes bytes, so does the filter: what it lets out, and
/// what it then holds back, is a subsequence of what it was given.
pub proof fn lemma_feed_removes(
    step: ByteStep,
    kept: spec_fn(Seq<u8>) -> bool,
    data: Seq<u8>,
)
    requires
        kept(seq![]),
        forall|h: Seq<u8>, byte: u8| kept(h) ==> kept((#[trigger] step(h, byte)).0),
        forall|h: Seq<u8>, byte: u8|
            kept(h) ==> is_subsequence(
                (#[trigger] step(h, byte)).1 + step(h, byte).0,
                h.push(byte),
            ),
    ensures
        is_subsequence(feed(step, seq![], data).1 + feed(step, seq![], data).0, data),
    decreases data.len(),
{
    if data.len() > 0 {
        let shorter = data.drop_last();
        lemma_feed_removes(step, kept, shorter);
        lemma_feed_keeps(step, kept, seq![], shorter);
        let before = feed(step, seq![], shorter);
        let last = step(before.0, data.last());
        let seen = before.0.push(data.last());
        lemma_subsequence_of_itself(before.1);
        lemma_subsequence_concat(before.1, before.1, last.1 + last.0, seen);
        assert(before.1 + (last.1 + last.0) =~= (before.1 + last.1) + last.0);
        lemma_subsequence_of_itself(seq![data.last()]);
        lemma_subsequence_concat(
            before.1 + before.0,
            shorter,
            seq![data.last()],
            seq![data.last()],
        );
        assert((before.1 + before.0) + seq![data.last()] =~= before.1 + seen);
        assert(shorter + seq![data.last()] =~= data);
        lemma_subsequence_of_subsequence((before.1 + last.1) + last.0, before.1 + seen, data);
    } else {
        assert(feed(step, seq![], data).1 + feed(step, seq![], data).0 =~= seq![]);
    }
}

} // verus!
