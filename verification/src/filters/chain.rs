//! Running filters one after the other.
use std::borrow::Cow;
use vstd::prelude::*;

use crate::filters::model::{self, Behaviour, Call};
use crate::filters::Filter;

verus! {

/// Bytes on their way from one filter of a chain to the next.
#[verifier::ext_equal]
pub struct Pass {
    pub data: Seq<u8>,
    /// Whether the stream ends with these bytes.
    pub last: bool,
}

/// What enters a chain with a call.
pub open spec fn entering(call: Call) -> Pass {
    match call {
        Call::Chunk(data) => Pass { data, last: false },
        Call::Finish => Pass { data: seq![], last: true },
    }
}

/// The calls that bring `pass` to a filter: at the end of the stream the
/// filter takes the bytes of the filters before it and is then finished.
pub open spec fn delivery(pass: Pass) -> Seq<Call> {
    if pass.last {
        seq![Call::Chunk(pass.data), Call::Finish]
    } else {
        seq![Call::Chunk(pass.data)]
    }
}

/// The calls that bring `passes` to a filter, in order.
pub open spec fn deliveries(passes: Seq<Pass>) -> Seq<Call>
    decreases passes.len(),
{
    if passes.len() == 0 {
        seq![]
    } else {
        deliveries(passes.drop_last()) + delivery(passes.last())
    }
}

/// What leaves `filter` with the last of `passes`.
pub open spec fn leaving(filter: Behaviour, passes: Seq<Pass>) -> Pass {
    let before = deliveries(passes.drop_last());
    let taken = filter(before + seq![Call::Chunk(passes.last().data)]);
    Pass {
        data: if passes.last().last {
            taken + filter(before + delivery(passes.last()))
        } else {
            taken
        },
        last: passes.last().last,
    }
}

/// What leaves `filter` with each of `passes`.
pub open spec fn through(filter: Behaviour, passes: Seq<Pass>) -> Seq<Pass> {
    Seq::new(passes.len(), |i: int| leaving(filter, passes.take(i + 1)))
}

/// What leaves the last of `filters` with each of `passes`, which enter the
/// first.
pub open spec fn through_all(filters: Seq<Behaviour>, passes: Seq<Pass>) -> Seq<Pass>
    decreases filters.len(),
{
    if filters.len() == 0 {
        passes
    } else {
        through_all(filters.drop_first(), through(filters[0], passes))
    }
}

/// What enters a chain with each of `calls`.
pub open spec fn entries(calls: Seq<Call>) -> Seq<Pass> {
    calls.map_values(|call: Call| entering(call))
}

/// What the last of `calls` returns when `calls` are made, in order, on a
/// chain of `filters`.
pub open spec fn chain_reply(filters: Seq<Behaviour>, calls: Seq<Call>) -> Seq<u8> {
    through_all(filters, entries(calls)).last().data
}

/// What can be seen of each of `filters`.
pub open spec fn behaviours(filters: Seq<Box<dyn Filter>>) -> Seq<Behaviour> {
    Seq::new(filters.len(), |i: int| (|calls: Seq<Call>| filters[i].reply(calls)))
}

/// Whether a filter borrows the bytes that it returns for a chunk.
pub type Borrowing = spec_fn(Seq<u8>) -> bool;

/// Whether each of `filters` borrows what it returns.
pub open spec fn borrowings(filters: Seq<Box<dyn Filter>>) -> Seq<Borrowing> {
    Seq::new(filters.len(), |i: int| (|data: Seq<u8>| filters[i].borrows(data)))
}

/// Whether a chain borrows the bytes that it returns for a chunk: each of its
/// filters borrows what it returns for what leaves the filters before it.
pub open spec fn chain_borrows(
    filters: Seq<Behaviour>,
    borrowing: Seq<Borrowing>,
    data: Seq<u8>,
) -> bool
    decreases filters.len(),
{
    filters.len() > 0 ==> borrowing[0](data) && chain_borrows(
        filters.drop_first(),
        borrowing.drop_first(),
        filters[0](seq![Call::Chunk(data)]),
    )
}

/// Runs filters in order, including their buffered output at EOF.
pub struct FilterChain {
    filters: Vec<Box<dyn Filter>>,
}

proof fn lemma_deliveries_first(pass: Pass, rest: Seq<Pass>)
    ensures
        deliveries(seq![pass] + rest) == delivery(pass) + deliveries(rest),
    decreases rest.len(),
{
    let passes = seq![pass] + rest;
    if rest.len() == 0 {
        assert(passes.drop_last() =~= seq![]);
        assert(passes.last() == pass);
        assert(deliveries(passes.drop_last()) =~= seq![]);
        assert(deliveries(passes) =~= delivery(pass) + deliveries(rest));
    } else {
        lemma_deliveries_first(pass, rest.drop_last());
        assert(passes.drop_last() =~= seq![pass] + rest.drop_last());
        assert(passes.last() == rest.last());
        assert(deliveries(passes) =~= delivery(pass) + deliveries(rest));
    }
}

/// Once `before` has been handed `pass` it is `after`, which takes the rest.
proof fn lemma_through_first(
    before: Behaviour,
    after: Behaviour,
    pass: Pass,
    rest: Seq<Pass>,
)
    requires
        forall|later: Seq<Call>|
            later.len() > 0 ==> #[trigger] after(later) == before(
                delivery(pass) + later,
            ),
    ensures
        through(before, seq![pass] + rest) == seq![leaving(before, seq![pass])] + through(
            after,
            rest,
        ),
{
    let passes = seq![pass] + rest;
    let left = through(before, passes);
    let right = seq![leaving(before, seq![pass])] + through(after, rest);
    assert forall|i: int| 0 <= i < left.len() implies left[i] == right[i] by {
        if i == 0 {
            assert(passes.take(1) =~= seq![pass]);
        } else {
            let now = rest.take(i);
            assert(passes.take(i + 1) =~= seq![pass] + now);
            assert((seq![pass] + now).drop_last() =~= seq![pass] + now.drop_last());
            lemma_deliveries_first(pass, now.drop_last());
            let earlier = deliveries(now.drop_last());
            let taken = seq![Call::Chunk(now.last().data)];
            assert((delivery(pass) + earlier) + taken =~= delivery(pass) + (earlier + taken));
            assert((delivery(pass) + earlier) + delivery(now.last()) =~= delivery(pass) + (earlier
                + delivery(now.last())));
            assert(after(earlier + taken) == before(
                delivery(pass) + (earlier + taken),
            ));
            assert(after(earlier + delivery(now.last())) == before(
                delivery(pass) + (earlier + delivery(now.last())),
            ));
        }
    }
    assert(left =~= right);
}

/// The last filter of a chain takes what leaves the others.
proof fn lemma_through_all_last(
    filters: Seq<Behaviour>,
    filter: Behaviour,
    passes: Seq<Pass>,
)
    ensures
        through_all(filters.push(filter), passes) == through(
            filter,
            through_all(filters, passes),
        ),
    decreases filters.len(),
{
    let all = filters.push(filter);
    if filters.len() == 0 {
        assert(all.drop_first() =~= seq![]);
        assert(all[0] == filter);
        assert(through_all(all.drop_first(), through(filter, passes)) == through(filter, passes));
    } else {
        assert(all.drop_first() =~= filters.drop_first().push(filter));
        assert(all[0] == filters[0]);
        lemma_through_all_last(filters.drop_first(), filter, through(filters[0], passes));
    }
}

/// The first `done` filters have taken `start`, and `handed` is what leaves
/// them: they are as in `now`, the others as in `before`.
spec fn chain_progress(
    before: Seq<Behaviour>,
    now: Seq<Behaviour>,
    done: int,
    start: Pass,
    handed: Pass,
) -> bool {
    &&& now.len() == before.len()
    &&& forall|j: int| done <= j < now.len() ==> now[j] == before[j]
    &&& forall|rest: Seq<Pass>| #[trigger]
        through_all(before, seq![start] + rest) == through_all(
            before.skip(done),
            seq![handed] + through_all(now.take(done), rest),
        )
}

proof fn lemma_chain_start(before: Seq<Behaviour>, start: Pass)
    ensures
        chain_progress(before, before, 0, start, start),
{
    assert(before.skip(0) =~= before);
    assert(before.take(0) =~= seq![]);
}

/// The next filter takes what leaves those before it.
proof fn lemma_chain_step(
    before: Seq<Behaviour>,
    now: Seq<Behaviour>,
    next: Seq<Behaviour>,
    done: int,
    start: Pass,
    handed: Pass,
)
    requires
        0 <= done < before.len(),
        chain_progress(before, now, done, start, handed),
        next.len() == now.len(),
        forall|j: int| 0 <= j < now.len() && j != done ==> next[j] == now[j],
        forall|later: Seq<Call>|
            later.len() > 0 ==> #[trigger] next[done](later) == now[done](
                delivery(handed) + later,
            ),
    ensures
        chain_progress(before, next, done + 1, start, leaving(now[done], seq![handed])),
{
    let left = leaving(now[done], seq![handed]);
    assert forall|rest: Seq<Pass>| #[trigger]
        through_all(before, seq![start] + rest) == through_all(
            before.skip(done + 1),
            seq![left] + through_all(next.take(done + 1), rest),
        ) by {
        let passed = through_all(now.take(done), rest);
        assert(before.skip(done).drop_first() =~= before.skip(done + 1));
        assert(before.skip(done)[0] == now[done]);
        lemma_through_first(now[done], next[done], handed, passed);
        assert(now.take(done) =~= next.take(done));
        assert(next.take(done + 1) =~= next.take(done).push(next[done]));
        lemma_through_all_last(next.take(done), next[done], rest);
    }
}

/// At the end of the chain `handed` is what leaves it, and what can be seen
/// of it later is what can be seen of its filters.
proof fn lemma_chain_end(before: Seq<Behaviour>, now: Seq<Behaviour>, call: Call, handed: Pass)
    requires
        chain_progress(before, now, before.len() as int, entering(call), handed),
    ensures
        chain_reply(before, seq![call]) == handed.data,
        forall|later: Seq<Call>|
            later.len() > 0 ==> #[trigger] chain_reply(now, later) == chain_reply(
                before,
                seq![call] + later,
            ),
{
    let start = entering(call);
    assert(before.skip(before.len() as int) =~= seq![]);
    assert(now.take(before.len() as int) =~= now);
    lemma_through_all_len(now, seq![]);
    assert(through_all(now, seq![]) =~= seq![]);
    assert(through_all(before, seq![start] + Seq::<Pass>::empty()) =~= seq![handed]);
    assert(entries(seq![call]) =~= seq![start] + Seq::<Pass>::empty());
    assert forall|later: Seq<Call>| later.len() > 0 implies #[trigger] chain_reply(now, later)
        == chain_reply(before, seq![call] + later) by {
        assert(entries(seq![call] + later) =~= seq![start] + entries(later));
        lemma_through_all_len(now, entries(later));
        let passed = through_all(now, entries(later));
        assert(through_all(before, seq![start] + entries(later)) == seq![handed] + passed);
        assert((seq![handed] + passed).last() == passed.last());
    }
}

proof fn lemma_through_all_len(filters: Seq<Behaviour>, passes: Seq<Pass>)
    ensures
        through_all(filters, passes).len() == passes.len(),
    decreases filters.len(),
{
    if filters.len() > 0 {
        lemma_through_all_len(filters.drop_first(), through(filters[0], passes));
    }
}

/// A filter that goes by `first`, and behind it one that goes by `second`.
pub open spec fn pair(
    first: model::ByteStep,
    first_held: Seq<u8>,
    second: model::ByteStep,
    second_held: Seq<u8>,
) -> Seq<Behaviour> {
    seq![
        model::step_behaviour(first, first_held),
        model::step_behaviour(second, second_held),
    ]
}

/// What a chunk does to two filters: what each of them then holds back, and
/// what leaves the second.
pub open spec fn feed_pair(
    first: model::ByteStep,
    first_held: Seq<u8>,
    second: model::ByteStep,
    second_held: Seq<u8>,
    data: Seq<u8>,
) -> (Seq<u8>, Seq<u8>, Seq<u8>) {
    let (first_next, between) = model::feed(first, first_held, data);
    let (second_next, out) = model::feed(second, second_held, between);
    (first_next, second_next, out)
}

/// What two filters hold back after a call, and what leaves the second. At the
/// end the second takes what the first held back.
pub open spec fn answer_pair(
    first: model::ByteStep,
    first_held: Seq<u8>,
    second: model::ByteStep,
    second_held: Seq<u8>,
    call: Call,
) -> (Seq<u8>, Seq<u8>, Seq<u8>) {
    match call {
        Call::Chunk(data) => feed_pair(first, first_held, second, second_held, data),
        Call::Finish => {
            let (held, out) = model::feed(second, second_held, first_held);
            (seq![], seq![], out + held)
        },
    }
}

/// One filter by steps takes what is handed to it.
proof fn lemma_step_takes(step: model::ByteStep, held: Seq<u8>, handed: Pass, left: Seq<u8>)
    requires
        left == if handed.last {
            seq![]
        } else {
            model::feed(step, held, handed.data).0
        },
    ensures
        ({
            let (next, out) = model::feed(step, held, handed.data);
            let after = model::step_behaviour(step, left);
            let before = model::step_behaviour(step, held);
            &&& leaving(before, seq![handed]).data == if handed.last {
                out + next
            } else {
                out
            }
            &&& leaving(before, seq![handed]).last == handed.last
            &&& forall|later: Seq<Call>|
                later.len() > 0 ==> #[trigger] after(later) == before(delivery(handed) + later)
        }),
{
    let (next, out) = model::feed(step, held, handed.data);
    let chunk = Call::Chunk(handed.data);
    let before = model::step_behaviour(step, held);
    model::lemma_answers(step, held, chunk);
    model::lemma_answers(step, next, Call::Finish);
    assert(seq![handed].drop_last() =~= seq![]);
    assert(Seq::<Call>::empty() + seq![chunk] =~= seq![chunk]);
    if handed.last {
        assert(Seq::<Call>::empty() + delivery(handed) =~= seq![chunk] + seq![Call::Finish]);
        assert forall|later: Seq<Call>| later.len() > 0 implies #[trigger] model::step_behaviour(
            step,
            seq![],
        )(later) == before(delivery(handed) + later) by {
            assert(delivery(handed) + later =~= seq![chunk] + (seq![Call::Finish] + later));
        }
    }
}

/// Two filters by steps are a chain: a call makes of them what `answer_pair`
/// says.
pub proof fn lemma_pair_answers(
    first: model::ByteStep,
    first_held: Seq<u8>,
    first_next: Seq<u8>,
    second: model::ByteStep,
    second_held: Seq<u8>,
    second_next: Seq<u8>,
    call: Call,
)
    requires
        first_next == answer_pair(first, first_held, second, second_held, call).0,
        second_next == answer_pair(first, first_held, second, second_held, call).1,
    ensures
        chain_reply(pair(first, first_held, second, second_held), seq![call]) == answer_pair(
            first,
            first_held,
            second,
            second_held,
            call,
        ).2,
        forall|later: Seq<Call>|
            later.len() > 0 ==> #[trigger] chain_reply(
                pair(first, first_next, second, second_next),
                later,
            ) == chain_reply(pair(first, first_held, second, second_held), seq![call] + later),
{
    let before = pair(first, first_held, second, second_held);
    let between = pair(first, first_next, second, second_held);
    let after = pair(first, first_next, second, second_next);
    let start = entering(call);
    lemma_chain_start(before, start);
    lemma_step_takes(first, first_held, start, first_next);
    let passed = leaving(before[0], seq![start]);
    assert(call is Finish ==> model::feed(first, first_held, start.data).0 == first_held);
    assert(call is Finish ==> passed.data =~= first_held);
    assert forall|later: Seq<Call>| later.len() > 0 implies #[trigger] between[0](later)
        == before[0](delivery(start) + later) by {
        assert(model::step_behaviour(first, first_next)(later) == between[0](later));
    }
    lemma_chain_step(before, before, between, 0, start, start);
    lemma_step_takes(second, second_held, passed, second_next);
    assert forall|later: Seq<Call>| later.len() > 0 implies #[trigger] after[1](later)
        == between[1](delivery(passed) + later) by {
        assert(model::step_behaviour(second, second_next)(later) == after[1](later));
    }
    lemma_chain_step(before, between, after, 1, start, passed);
    lemma_chain_end(before, after, call, leaving(between[1], seq![passed]));
}

impl FilterChain {
    /// What can be seen of the filters, in processing order.
    pub closed spec fn stages(self) -> Seq<Behaviour> {
        behaviours(self.filters@)
    }

    /// Whether the filters borrow what they return, in processing order.
    pub closed spec fn borrowing(self) -> Seq<Borrowing> {
        borrowings(self.filters@)
    }

    /// Creates a chain in the given processing order.
    pub fn new(filters: Vec<Box<dyn Filter>>) -> (chain: Self)
        ensures
            chain.stages() == behaviours(filters@),
            chain.borrowing() == borrowings(filters@),
    {
        FilterChain { filters }
    }

    /// Moves a filter behind the others, and leaves one that passes everything
    /// on in its place.
    pub(crate) fn push(&mut self, filter: &mut Box<dyn Filter>)
        ensures
            final(self).stages().drop_last() == old(self).stages(),
            final(self).stages().len() == old(self).stages().len() + 1,
            forall|calls: Seq<Call>| #[trigger]
                final(self).stages().last()(calls) == old(filter).reply(calls),
            final(self).borrowing().drop_last() == old(self).borrowing(),
            final(self).borrowing().len() == old(self).borrowing().len() + 1,
            forall|data: Seq<u8>| #[trigger]
                final(self).borrowing().last()(data) == old(filter).borrows(data),
    {
        let ghost before = self.filters@;
        let last: usize = self.filters.len();
        push_slot(&mut self.filters, Box::new(FilterChain { filters: Vec::new() }));
        std::mem::swap(&mut self.filters[last], filter);
        assert(behaviours(self.filters@).drop_last() =~= behaviours(before));
        assert(borrowings(self.filters@).drop_last() =~= borrowings(before));
    }
}

/// Adds a slot behind the others.
fn push_slot<T>(slots: &mut Vec<T>, slot: T)
    ensures
        final(slots)@.len() == old(slots)@.len() + 1,
        forall|i: int|
            0 <= i < old(slots)@.len() ==> #[trigger] final(slots)@[i] == old(slots)@[i],
{
    slots.push(slot);
}

impl Default for FilterChain {
    fn default() -> (chain: Self)
        ensures
            chain.stages() == Seq::<Behaviour>::empty(),
            chain.borrowing() == Seq::<Borrowing>::empty(),
    {
        let filters: Vec<Box<dyn Filter>> = Vec::new();
        assert(filters@.len() == 0);
        assert(behaviours(filters@).len() == 0);
        let chain = FilterChain { filters };
        assert(chain.stages() =~= seq![]);
        assert(chain.borrowing() =~= seq![]);
        chain
    }
}

fn apply_filter<'a>(filter: &mut Box<dyn Filter>, data: Cow<'a, [u8]>) -> (out: Cow<'a, [u8]>)
    ensures
        out@ == old(filter).reply(seq![Call::Chunk(data@)]),
        out is Borrowed <==> data is Borrowed && old(filter).borrows(data@),
        forall|later: Seq<Call>|
            later.len() > 0 ==> #[trigger] final(filter).reply(later) == old(filter).reply(
                seq![Call::Chunk(data@)] + later,
            ),
{
    match data {
        Cow::Borrowed(bytes) => filter.filter(bytes),
        Cow::Owned(bytes) => match filter.filter(&bytes) {
            Cow::Owned(next) => Cow::Owned(next),
            // A filter may also borrow a subslice or a static replacement.
            Cow::Borrowed(next) => Cow::Owned(vstd::slice::slice_to_vec(next)),
        },
    }
}

impl Filter for FilterChain {
    open spec fn reply(&self, calls: Seq<Call>) -> Seq<u8> {
        chain_reply(self.stages(), calls)
    }

    open spec fn borrows(&self, data: Seq<u8>) -> bool {
        chain_borrows(self.stages(), self.borrowing(), data)
    }

    fn filter<'a>(&mut self, data: &'a [u8]) -> (out: Cow<'a, [u8]>) {
        let ghost before = self.stages();
        let ghost borrowing = self.borrowing();
        let ghost start = entering(Call::Chunk(data@));
        let mut out: Cow<'a, [u8]> = Cow::Borrowed(data);
        let mut i: usize = 0;
        proof {
            lemma_chain_start(before, start);
            assert(before.skip(0) =~= before);
            assert(borrowing.skip(0) =~= borrowing);
        }
        while i < self.filters.len()
            invariant
                i <= self.filters@.len() == before.len(),
                chain_progress(
                    before,
                    self.stages(),
                    i as int,
                    start,
                    (Pass { data: out@, last: false }),
                ),
                borrowing.len() == before.len(),
                forall|j: int| i <= j < before.len() ==> self.borrowing()[j] == borrowing[j],
                chain_borrows(before, borrowing, data@) == (out is Borrowed && chain_borrows(
                    before.skip(i as int),
                    borrowing.skip(i as int),
                    out@,
                )),
            decreases self.filters@.len() - i,
        {
            let ghost stages = self.stages();
            let ghost handed = Pass { data: out@, last: false };
            proof {
                assert(self.borrowing()[i as int] == borrowing[i as int]);
                assert(stages[i as int] == before[i as int]);
                assert(before.skip(i as int).drop_first() =~= before.skip(i + 1));
                assert(borrowing.skip(i as int).drop_first() =~= borrowing.skip(i + 1));
                assert(self.filters@[i as int].borrows(out@) == borrowing[i as int](out@));
            }
            out = apply_filter(&mut self.filters[i], out);
            proof {
                assert(seq![handed].drop_last() =~= seq![]);
                assert(Seq::<Call>::empty() + seq![Call::Chunk(handed.data)] =~= seq![
                    Call::Chunk(handed.data),
                ]);
                lemma_chain_step(before, stages, self.stages(), i as int, start, handed);
            }
            i += 1;
        }
        proof {
            let left = Pass { data: out@, last: false };
            lemma_chain_end(before, self.stages(), Call::Chunk(data@), left);
        }
        out
    }

    fn finish(&mut self) -> (tail: Vec<u8>) {
        let ghost before = self.stages();
        let ghost start = entering(Call::Finish);
        let mut tail: Vec<u8> = Vec::new();
        let mut i: usize = 0;
        proof {
            lemma_chain_start(before, start);
            assert(start.data =~= tail@);
        }
        while i < self.filters.len()
            invariant
                i <= self.filters@.len() == before.len(),
                chain_progress(
                    before,
                    self.stages(),
                    i as int,
                    start,
                    (Pass { data: tail@, last: true }),
                ),
            decreases self.filters@.len() - i,
        {
            let ghost stages = self.stages();
            let ghost handed = Pass { data: tail@, last: true };
            let ghost taken = seq![Call::Chunk(handed.data)];
            // Upstream tails follow any earlier bytes held by this filter.
            tail = match apply_filter(&mut self.filters[i], Cow::Owned(tail)) {
                Cow::Owned(bytes) => bytes,
                Cow::Borrowed(bytes) => vstd::slice::slice_to_vec(bytes),
            };
            let ghost between = self.stages();
            let mut rest = self.filters[i].finish();
            tail.append(&mut rest);
            proof {
                assert(seq![handed].drop_last() =~= seq![]);
                assert(Seq::<Call>::empty() + taken =~= taken);
                assert(Seq::<Call>::empty() + delivery(handed) =~= delivery(handed));
                assert(taken + seq![Call::Finish] =~= delivery(handed));
                assert(between[i as int](seq![Call::Finish]) == stages[i as int](
                    taken + seq![Call::Finish],
                ));
                assert forall|later: Seq<Call>| later.len() > 0 implies #[trigger] self.stages()[
                i as int](later) == stages[i as int](delivery(handed) + later) by {
                    assert(self.stages()[i as int](later) == between[i as int](
                        seq![Call::Finish] + later,
                    ));
                    assert(taken + (seq![Call::Finish] + later) =~= delivery(handed) + later);
                }
                lemma_chain_step(before, stages, self.stages(), i as int, start, handed);
            }
            i += 1;
        }
        proof {
            lemma_chain_end(before, self.stages(), Call::Finish, Pass { data: tail@, last: true });
        }
        tail
    }
}

/// Whether `passes` is one whole stream.
spec fn is_whole(passes: Seq<Pass>) -> bool {
    &&& passes.len() > 0
    &&& forall|i: int|
        0 <= i < passes.len() ==> (#[trigger] passes[i]).last == (i == passes.len() - 1)
}

/// The bytes of each of `passes`.
spec fn payloads(passes: Seq<Pass>) -> Seq<Seq<u8>> {
    passes.map_values(|pass: Pass| pass.data)
}

/// What leaves a filter does not depend on what enters it later.
proof fn lemma_through_take(filter: Behaviour, passes: Seq<Pass>, len: int)
    requires
        0 <= len <= passes.len(),
    ensures
        through(filter, passes.take(len)) == through(filter, passes).take(len),
{
    let left = through(filter, passes.take(len));
    let right = through(filter, passes).take(len);
    assert forall|i: int| 0 <= i < left.len() implies left[i] == right[i] by {
        assert(passes.take(len).take(i + 1) =~= passes.take(i + 1));
    }
    assert(left =~= right);
}

proof fn lemma_through_all_take(filters: Seq<Behaviour>, passes: Seq<Pass>, len: int)
    requires
        0 <= len <= passes.len(),
    ensures
        through_all(filters, passes.take(len)) == through_all(filters, passes).take(len),
    decreases filters.len(),
{
    if filters.len() > 0 {
        lemma_through_take(filters[0], passes, len);
        lemma_through_all_take(filters.drop_first(), through(filters[0], passes), len);
    }
}

/// The calls that bring chunks to a filter, before the stream ends.
proof fn lemma_deliveries_of_chunks(passes: Seq<Pass>)
    requires
        forall|i: int| 0 <= i < passes.len() ==> !(#[trigger] passes[i]).last,
    ensures
        deliveries(passes) == payloads(passes).map_values(|chunk: Seq<u8>| Call::Chunk(chunk)),
    decreases passes.len(),
{
    if passes.len() > 0 {
        assert forall|i: int| 0 <= i < passes.drop_last().len() implies !(
        #[trigger] passes.drop_last()[i]).last by {
            assert(passes[i] == passes.drop_last()[i]);
        }
        lemma_deliveries_of_chunks(passes.drop_last());
        assert(!passes[passes.len() - 1].last);
    }
    assert(deliveries(passes) =~= payloads(passes).map_values(
        |chunk: Seq<u8>| Call::Chunk(chunk),
    ));
}

/// What leaves a filter before the stream ends is what the chunks return.
proof fn lemma_through_outputs_of_chunks(filter: Behaviour, passes: Seq<Pass>)
    requires
        forall|i: int| 0 <= i < passes.len() ==> !(#[trigger] passes[i]).last,
    ensures
        model::concat(payloads(through(filter, passes))) == model::outputs(
            filter,
            deliveries(passes),
        ),
    decreases passes.len(),
{
    let out = payloads(through(filter, passes));
    if passes.len() > 0 {
        let before = passes.drop_last();
        assert forall|i: int| 0 <= i < before.len() implies !(#[trigger] before[i]).last by {
            assert(passes[i] == before[i]);
        }
        lemma_through_outputs_of_chunks(filter, before);
        assert(before =~= passes.take(passes.len() - 1));
        lemma_through_take(filter, passes, passes.len() - 1);
        assert(out.drop_last() =~= payloads(through(filter, before)));
        assert(passes.take(passes.len() as int) =~= passes);
        assert(!passes[passes.len() - 1].last);
        let calls = deliveries(passes);
        assert(calls.drop_last() =~= deliveries(before));
        assert(out.last() == filter(calls));
    }
}

/// What leaves a filter over a whole stream is what its calls return.
proof fn lemma_through_outputs(filter: Behaviour, passes: Seq<Pass>)
    requires
        is_whole(passes),
    ensures
        is_whole(through(filter, passes)),
        model::concat(payloads(through(filter, passes))) == model::outputs(
            filter,
            model::whole_stream(payloads(passes)),
        ),
{
    let before = passes.drop_last();
    let out = through(filter, passes);
    assert forall|i: int| 0 <= i < before.len() implies !(#[trigger] before[i]).last by {
        assert(passes[i] == before[i]);
    }
    assert forall|i: int| 0 <= i < out.len() implies (#[trigger] out[i]).last == (i == out.len()
        - 1) by {
        assert(passes.take(i + 1).last() == passes[i]);
    }
    lemma_deliveries_of_chunks(before);
    lemma_through_outputs_of_chunks(filter, before);
    assert(before =~= passes.take(passes.len() - 1));
    lemma_through_take(filter, passes, passes.len() - 1);
    assert(payloads(out).drop_last() =~= payloads(through(filter, before)));
    assert(passes.take(passes.len() as int) =~= passes);
    let last = passes.last();
    assert(passes[passes.len() - 1].last);
    let calls = model::whole_stream(payloads(passes));
    let taken = deliveries(before) + seq![Call::Chunk(last.data)];
    assert(calls =~= deliveries(before) + delivery(last));
    assert(calls.drop_last() =~= taken);
    assert(taken.drop_last() =~= deliveries(before));
    assert(payloads(out).last() == filter(taken) + filter(calls));
    assert(model::outputs(filter, calls) == model::outputs(filter, taken) + filter(calls));
    assert(model::outputs(filter, taken) == model::outputs(filter, deliveries(before)) + filter(
        taken,
    ));
    assert(model::concat(payloads(out)) =~= model::outputs(filter, calls));
}

proof fn lemma_through_all_ignores_cuts(filters: Seq<Behaviour>, a: Seq<Pass>, b: Seq<Pass>)
    requires
        is_whole(a),
        is_whole(b),
        model::concat(payloads(a)) == model::concat(payloads(b)),
        forall|i: int| 0 <= i < filters.len() ==> model::ignores_cuts(#[trigger] filters[i]),
    ensures
        model::concat(payloads(through_all(filters, a))) == model::concat(
            payloads(through_all(filters, b)),
        ),
    decreases filters.len(),
{
    if filters.len() > 0 {
        lemma_through_outputs(filters[0], a);
        lemma_through_outputs(filters[0], b);
        let rest = filters.drop_first();
        assert forall|i: int| 0 <= i < rest.len() implies model::ignores_cuts(
            #[trigger] rest[i],
        ) by {
            assert(rest[i] == filters[i + 1]);
        }
        assert(model::ignores_cuts(filters[0]));
        lemma_through_all_ignores_cuts(rest, through(filters[0], a), through(filters[0], b));
    }
}

proof fn lemma_chain_outputs(filters: Seq<Behaviour>, calls: Seq<Call>)
    ensures
        model::outputs(chain_behaviour(filters), calls) == model::concat(
            payloads(through_all(filters, entries(calls))),
        ),
    decreases calls.len(),
{
    lemma_through_all_len(filters, entries(calls));
    let out = through_all(filters, entries(calls));
    if calls.len() > 0 {
        lemma_chain_outputs(filters, calls.drop_last());
        assert(entries(calls.drop_last()) =~= entries(calls).take(calls.len() - 1));
        lemma_through_all_take(filters, entries(calls), calls.len() - 1);
        assert(payloads(out).drop_last() =~= payloads(out.take(calls.len() - 1)));
        assert(payloads(out).last() == out.last().data);
    }
}

/// What can be seen of a chain of `filters`.
pub open spec fn chain_behaviour(filters: Seq<Behaviour>) -> Behaviour {
    |calls: Seq<Call>| chain_reply(filters, calls)
}

/// Chunks may be cut anywhere in front of a chain, as long as that holds of
/// each of its filters.
pub proof fn chains_ignore_cuts(filters: Seq<Behaviour>)
    requires
        forall|i: int| 0 <= i < filters.len() ==> model::ignores_cuts(#[trigger] filters[i]),
    ensures
        model::ignores_cuts(chain_behaviour(filters)),
{
    let chain = chain_behaviour(filters);
    assert forall|a: Seq<Seq<u8>>, b: Seq<Seq<u8>>|
        model::concat(a) == model::concat(b) implies #[trigger] model::outputs(
        chain,
        model::whole_stream(a),
    ) == #[trigger] model::outputs(chain, model::whole_stream(b)) by {
        lemma_chain_outputs(filters, model::whole_stream(a));
        lemma_chain_outputs(filters, model::whole_stream(b));
        lemma_entering_stream(a);
        lemma_entering_stream(b);
        lemma_through_all_ignores_cuts(
            filters,
            entries(model::whole_stream(a)),
            entries(model::whole_stream(b)),
        );
    }
}

proof fn lemma_entering_stream(chunks: Seq<Seq<u8>>)
    ensures
        is_whole(entries(model::whole_stream(chunks))),
        model::concat(payloads(entries(model::whole_stream(chunks)))) == model::concat(chunks),
{
    let passes = entries(model::whole_stream(chunks));
    assert(payloads(passes) =~= chunks.push(seq![]));
    assert(payloads(passes).drop_last() =~= chunks);
    assert(model::concat(chunks) + Seq::<u8>::empty() =~= model::concat(chunks));
}

/// Two filters by steps over one chunk and the end.
proof fn lemma_pair_outputs(first: model::ByteStep, second: model::ByteStep, data: Seq<u8>)
    ensures
        ({
            let (held, out) = model::feed(first, seq![], data);
            let (last_held, last_out) = model::feed(second, seq![], out + held);
            model::outputs(
                chain_behaviour(pair(first, seq![], second, seq![])),
                seq![Call::Chunk(data), Call::Finish],
            ) == last_out + last_held
        }),
{
    let none = Seq::<u8>::empty();
    let chunk = Call::Chunk(data);
    let calls = seq![chunk, Call::Finish];
    let (held, between) = model::feed(first, none, data);
    let (second_held, out) = model::feed(second, none, between);
    let (end_held, end_out) = model::feed(second, second_held, held);
    let stages = pair(first, none, second, none);
    let filter = chain_behaviour(stages);
    lemma_pair_answers(first, none, held, second, none, second_held, chunk);
    lemma_pair_answers(first, held, none, second, second_held, none, Call::Finish);
    let later = seq![Call::Finish];
    assert(chain_reply(pair(first, held, second, second_held), later) == chain_reply(
        stages,
        seq![chunk] + later,
    ));
    assert(seq![chunk] + later =~= calls);
    assert(calls.drop_last() =~= seq![chunk]);
    assert(seq![chunk].drop_last() =~= seq![]);
    assert(model::outputs(filter, seq![]) == none);
    assert(model::outputs(filter, seq![chunk]) == none + out);
    assert(none + out =~= out);
    assert(model::outputs(filter, calls) == out + (end_out + end_held));
    model::lemma_feed_concat(second, none, between, held);
    assert(out + (end_out + end_held) =~= (out + end_out) + end_held);
}

/// What two filters by steps make of a whole stream, in whatever chunks, is
/// what the second makes of everything that the first lets out.
pub proof fn pairs_filter_whole_streams(
    first: model::ByteStep,
    second: model::ByteStep,
    chunks: Seq<Seq<u8>>,
)
    ensures
        ({
            let (held, out) = model::feed(first, seq![], model::concat(chunks));
            let (last_held, last_out) = model::feed(second, seq![], out + held);
            model::outputs(
                chain_behaviour(pair(first, seq![], second, seq![])),
                model::whole_stream(chunks),
            ) == last_out + last_held
        }),
{
    let data = model::concat(chunks);
    let stages = pair(first, seq![], second, seq![]);
    let whole = seq![data];
    model::steps_ignore_cuts(first, seq![]);
    model::steps_ignore_cuts(second, seq![]);
    assert forall|i: int| 0 <= i < stages.len() implies model::ignores_cuts(
        #[trigger] stages[i],
    ) by {
        assert(i == 0 || i == 1);
    }
    chains_ignore_cuts(stages);
    assert(whole.drop_last() =~= seq![]);
    assert(model::concat(whole.drop_last()) =~= seq![]);
    assert(model::concat(whole) =~= data);
    assert(model::outputs(chain_behaviour(stages), model::whole_stream(chunks)) == model::outputs(
        chain_behaviour(stages),
        model::whole_stream(whole),
    ));
    assert(model::whole_stream(whole) =~= seq![Call::Chunk(data), Call::Finish]);
    lemma_pair_outputs(first, second, data);
}

proof fn lemma_through_all_is_whole(filters: Seq<Behaviour>, passes: Seq<Pass>)
    requires
        is_whole(passes),
    ensures
        is_whole(through_all(filters, passes)),
    decreases filters.len(),
{
    if filters.len() > 0 {
        lemma_through_outputs(filters[0], passes);
        lemma_through_all_is_whole(filters.drop_first(), through(filters[0], passes));
    }
}

/// One filter more takes everything that the others make of a whole stream, in
/// whatever chunks, up to and with its end. A chain of no filters changes
/// nothing.
pub proof fn each_filter_takes_what_the_others_leave(
    filters: Seq<Behaviour>,
    filter: Behaviour,
    chunks: Seq<Seq<u8>>,
)
    requires
        model::ignores_cuts(filter),
    ensures
        model::outputs(chain_behaviour(filters.push(filter)), model::whole_stream(chunks))
            == model::outputs(
            filter,
            model::whole_stream(
                seq![model::outputs(chain_behaviour(filters), model::whole_stream(chunks))],
            ),
        ),
        filters.len() == 0 ==> model::outputs(
            chain_behaviour(filters),
            model::whole_stream(chunks),
        ) == model::concat(chunks),
{
    let calls = model::whole_stream(chunks);
    let passes = entries(calls);
    let left = through_all(filters, passes);
    let all = model::outputs(chain_behaviour(filters), calls);
    lemma_entering_stream(chunks);
    lemma_chain_outputs(filters, calls);
    lemma_chain_outputs(filters.push(filter), calls);
    lemma_through_all_last(filters, filter, passes);
    lemma_through_all_is_whole(filters, passes);
    lemma_through_outputs(filter, left);
    assert(seq![all].drop_last() =~= seq![]);
    assert(model::concat(seq![all].drop_last()) =~= seq![]);
    assert(model::concat(seq![all]) =~= all);
    assert(model::outputs(filter, model::whole_stream(payloads(left))) == model::outputs(
        filter,
        model::whole_stream(seq![all]),
    ));
}

/// Of each chunk a filter at the end of a chain takes what leaves the others;
/// at the end of the stream it takes what they still held back, and is then
/// finished itself.
pub proof fn the_last_filter_takes_what_the_others_leave(
    filters: Seq<Behaviour>,
    filter: Behaviour,
    data: Seq<u8>,
)
    ensures
        chain_reply(filters.push(filter), seq![Call::Chunk(data)]) == filter(
            seq![Call::Chunk(chain_reply(filters, seq![Call::Chunk(data)]))],
        ),
        ({
            let taken = Call::Chunk(chain_reply(filters, seq![Call::Finish]));
            chain_reply(filters.push(filter), seq![Call::Finish]) == filter(seq![taken]) + filter(
                seq![taken, Call::Finish],
            )
        }),
        filters.len() == 0 ==> chain_reply(filters, seq![Call::Chunk(data)]) == data,
        filters.len() == 0 ==> chain_reply(filters, seq![Call::Finish]) == Seq::<u8>::empty(),
{
    lemma_last_reply(filters, filter, Call::Chunk(data));
    lemma_last_reply(filters, filter, Call::Finish);
    assert(entries(seq![Call::Chunk(data)]) =~= seq![entering(Call::Chunk(data))]);
    assert(entries(seq![Call::Finish]) =~= seq![entering(Call::Finish)]);
}

proof fn lemma_last_reply(filters: Seq<Behaviour>, filter: Behaviour, call: Call)
    ensures
        ({
            let taken = Call::Chunk(chain_reply(filters, seq![call]));
            chain_reply(filters.push(filter), seq![call]) == if call is Finish {
                filter(seq![taken]) + filter(seq![taken, Call::Finish])
            } else {
                filter(seq![taken])
            }
        }),
{
    let passes = entries(seq![call]);
    let left = through_all(filters, passes);
    assert(passes =~= seq![entering(call)]);
    lemma_through_all_last(filters, filter, passes);
    lemma_through_all_len(filters, passes);
    lemma_through_all_ends(filters, passes);
    let pass = left[0];
    assert(left =~= seq![pass]);
    assert(left.take(1) =~= left);
    assert(left.drop_last() =~= seq![]);
    let none = Seq::<Call>::empty();
    let taken = Call::Chunk(pass.data);
    assert(none + seq![taken] =~= seq![taken]);
    assert(none + delivery(pass) =~= delivery(pass));
}

proof fn lemma_through_all_ends(filters: Seq<Behaviour>, passes: Seq<Pass>)
    requires
        passes.len() == 1,
    ensures
        through_all(filters, passes).len() == 1,
        through_all(filters, passes)[0].last == passes[0].last,
    decreases filters.len(),
{
    if filters.len() > 0 {
        assert(passes.take(1) =~= passes);
        lemma_through_all_ends(filters.drop_first(), through(filters[0], passes));
    }
}

} // verus!
