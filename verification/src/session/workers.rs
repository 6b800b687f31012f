//! Which workers have gone, and how the session ends.
use vstd::prelude::*;

verus! {

/// A worker of a session.
#[derive(Clone, Copy, Debug, PartialEq, Eq, Structural)]
pub enum Worker {
    OutputReader,
    InputReader,
    TerminalWriter,
    /// The terminal writer's early notice of a failed write.
    TerminalWriteFailure,
    ChildWriter,
    Resize,
}

/// The notice of a worker that has ended, and how.
pub struct Completion<E> {
    pub worker: Worker,
    pub result: Result<(), E>,
}

/// The bit that stands for a worker.
pub open spec fn worker_bit(worker: Worker) -> u8 {
    match worker {
        Worker::OutputReader => 1,
        Worker::InputReader => 2,
        Worker::TerminalWriter => 4,
        Worker::TerminalWriteFailure => 8,
        Worker::ChildWriter => 16,
        Worker::Resize => 32,
    }
}

/// The bits of all workers.
const ALL_WORKERS: u8 = 63;

/// The workers whose bits are set.
pub open spec fn workers_in(mask: u8) -> Set<Worker> {
    Set::new(|worker: Worker| mask & worker_bit(worker) != 0)
}

/// The workers whose channel was found closed, those that have ended, and the
/// terminal writer's result.
pub struct Workers<E> {
    disconnected: u8,
    completed: u8,
    terminal_result: Option<Result<(), E>>,
}

/// The state of the workers.
#[verifier::reject_recursive_types(E)]
pub struct WorkersModel<E> {
    /// The workers whose channel was found closed.
    pub disconnected: Set<Worker>,
    /// The workers that have ended.
    pub completed: Set<Worker>,
    /// The terminal writer's result, once it has ended.
    pub terminal_result: Option<Result<(), E>>,
}

impl<E> WorkersModel<E> {
    /// Whether the session is over: the terminal writer has ended, and every
    /// worker whose channel was found closed has said how it ended.
    pub open spec fn is_over(self) -> bool {
        self.terminal_result is Some && self.disconnected.subset_of(self.completed)
    }
}

fn bit_of(worker: Worker) -> (bit: u8)
    ensures
        bit == worker_bit(worker),
{
    match worker {
        Worker::OutputReader => 1,
        Worker::InputReader => 2,
        Worker::TerminalWriter => 4,
        Worker::TerminalWriteFailure => 8,
        Worker::ChildWriter => 16,
        Worker::Resize => 32,
    }
}

proof fn lemma_insert(mask: u8, worker: Worker)
    ensures
        workers_in(mask | worker_bit(worker)) == workers_in(mask).insert(worker),
{
    let bit = worker_bit(worker);
    assert forall|other: Worker| workers_in(mask | bit).contains(other) == workers_in(mask).insert(
        worker,
    ).contains(other) by {
        let probe = worker_bit(other);
        assert((mask | bit) & probe != 0 <==> mask & probe != 0 || bit == probe) by (bit_vector)
            requires
                bit == 1 || bit == 2 || bit == 4 || bit == 8 || bit == 16 || bit == 32,
                probe == 1 || probe == 2 || probe == 4 || probe == 8 || probe == 16 || probe == 32,
        ;
    }
    assert(workers_in(mask | bit) =~= workers_in(mask).insert(worker));
}

proof fn lemma_subset(some: u8, all: u8)
    ensures
        (some & !all & ALL_WORKERS == 0) == workers_in(some).subset_of(workers_in(all)),
{
    assert((some & !all & 63 == 0) <==> {
        &&& some & 1 != 0 ==> all & 1 != 0
        &&& some & 2 != 0 ==> all & 2 != 0
        &&& some & 4 != 0 ==> all & 4 != 0
        &&& some & 8 != 0 ==> all & 8 != 0
        &&& some & 16 != 0 ==> all & 16 != 0
        &&& some & 32 != 0 ==> all & 32 != 0
    }) by (bit_vector);
    let subset = workers_in(some).subset_of(workers_in(all));
    if subset {
        assert(workers_in(some).contains(Worker::OutputReader) ==> workers_in(all).contains(
            Worker::OutputReader,
        ));
        assert(workers_in(some).contains(Worker::InputReader) ==> workers_in(all).contains(
            Worker::InputReader,
        ));
        assert(workers_in(some).contains(Worker::TerminalWriter) ==> workers_in(all).contains(
            Worker::TerminalWriter,
        ));
        assert(workers_in(some).contains(Worker::TerminalWriteFailure) ==> workers_in(
            all,
        ).contains(Worker::TerminalWriteFailure));
        assert(workers_in(some).contains(Worker::ChildWriter) ==> workers_in(all).contains(
            Worker::ChildWriter,
        ));
        assert(workers_in(some).contains(Worker::Resize) ==> workers_in(all).contains(
            Worker::Resize,
        ));
    }
    if some & !all & ALL_WORKERS == 0 {
        assert forall|worker: Worker| workers_in(some).contains(worker) implies workers_in(
            all,
        ).contains(worker) by {
            match worker {
                Worker::OutputReader => {},
                Worker::InputReader => {},
                Worker::TerminalWriter => {},
                Worker::TerminalWriteFailure => {},
                Worker::ChildWriter => {},
                Worker::Resize => {},
            }
        }
    }
}

impl<E> Workers<E> {
    /// The state, as mathematics.
    pub closed spec fn model(self) -> WorkersModel<E> {
        WorkersModel {
            disconnected: workers_in(self.disconnected),
            completed: workers_in(self.completed),
            terminal_result: self.terminal_result,
        }
    }

    /// Creates the state in which every worker is at work.
    pub fn new() -> (workers: Self)
        ensures
            workers.model() == (WorkersModel::<E> {
                disconnected: Set::empty(),
                completed: Set::empty(),
                terminal_result: None,
            }),
    {
        let workers = Workers { disconnected: 0, completed: 0, terminal_result: None };
        proof {
            assert forall|worker: Worker| !workers_in(0).contains(worker) by {
                let bit = worker_bit(worker);
                assert(0u8 & bit == 0) by (bit_vector);
            }
            assert(workers_in(0) =~= Set::empty());
        }
        workers
    }

    /// Whether a worker's channel was found closed.
    pub fn disconnected(&self, worker: Worker) -> (yes: bool)
        ensures
            yes == self.model().disconnected.contains(worker),
    {
        self.disconnected & bit_of(worker) != 0
    }

    /// Whether a worker has ended.
    pub fn completed(&self, worker: Worker) -> (yes: bool)
        ensures
            yes == self.model().completed.contains(worker),
    {
        self.completed & bit_of(worker) != 0
    }

    /// Notes that a worker's channel is closed.
    pub fn disconnect(&mut self, worker: Worker)
        ensures
            final(self).model() == (WorkersModel {
                disconnected: old(self).model().disconnected.insert(worker),
                ..old(self).model()
            }),
    {
        proof {
            lemma_insert(self.disconnected, worker);
        }
        self.disconnected = self.disconnected | bit_of(worker);
    }

    /// Notes that a worker has ended.
    pub fn complete(&mut self, worker: Worker)
        ensures
            final(self).model() == (WorkersModel {
                completed: old(self).model().completed.insert(worker),
                ..old(self).model()
            }),
    {
        proof {
            lemma_insert(self.completed, worker);
        }
        self.completed = self.completed | bit_of(worker);
    }

    /// Notes the terminal writer's result.
    pub fn set_terminal_result(&mut self, result: Result<(), E>)
        ensures
            final(self).model() == (WorkersModel {
                terminal_result: Some(result),
                ..old(self).model()
            }),
    {
        self.terminal_result = Some(result);
    }

    /// Takes the terminal writer's result, once the session is over.
    pub fn take_result(&mut self) -> (result: Option<Result<(), E>>)
        ensures
            ({
                let before = old(self).model();
                if before.is_over() {
                    &&& result == before.terminal_result
                    &&& final(self).model() == (WorkersModel { terminal_result: None, ..before })
                } else {
                    result is None && final(self).model() == before
                }
            }),
    {
        proof {
            lemma_subset(self.disconnected, self.completed);
        }
        if self.disconnected & !self.completed & ALL_WORKERS == 0 {
            self.terminal_result.take()
        } else {
            None
        }
    }
}

} // verus!
