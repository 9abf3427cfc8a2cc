//! A pool of workers that share one queue of work and one queue of results.
//!
//! The pool is made, started once with a number of workers, fed with work
//! while it runs, and stopped once. It owns both queues and keeps count of
//! its workers; each worker gets a [`WorkerLink`], its end of the queues.
//! Running the workers, each on a thread of its own, is left to the caller.
//!
//! The pool is the library's own. The `workers_pool` crate that the
//! registry has hands a worker one unit and takes one result back in one
//! call: it knows no steps and no state of a task, which a unit that is
//! worked off cell by cell needs.

use vstd::prelude::*;

verus! {

/// What all workers of a pool share, each with a copy of its own.
pub trait WorkContext: 'static + Send + Sync + Clone {

}

/// What a pool hands to its workers.
pub trait WorkData: 'static + Send {

}

/// What the workers of a pool hand back.
pub trait WorkResult: 'static + Send {

}

#[verifier::external_type_specification]
#[verifier::external_body]
#[verifier::reject_recursive_types(T)]
pub struct ExSender<T>(crossbeam::channel::Sender<T>);

#[verifier::external_type_specification]
#[verifier::external_body]
#[verifier::reject_recursive_types(T)]
pub struct ExReceiver<T>(crossbeam::channel::Receiver<T>);

/// What a worker is sent: a unit of work, or the order to end.
pub enum Work<W> {
    Close,
    Work(W),
}

/// Where a pool stands in its life: made, started, stopped.
#[derive(Copy, Clone, PartialEq, Eq, Debug, Structural)]
pub enum WorkersStatus {
    Created,
    Running,
    Stopped,
}

/// What an attempt to take a message from a queue without waiting gave.
pub enum Attempt<T> {
    Message(T),
    Empty,
    Disconnected,
}

/// Makes a queue of unlimited length with `crossbeam::channel::unbounded`
/// and hands out its two ends.
#[verifier::external_body]
fn unbounded<T>() -> (ends: (crossbeam::channel::Sender<T>, crossbeam::channel::Receiver<T>)) {
    crossbeam::channel::unbounded()
}

/// Puts `message` into the queue with `Sender::send`. On a queue of
/// unlimited length the call does not wait. It fails only where every
/// receiving end of the queue is gone: the result says whether the message
/// went in.
#[verifier::external_body]
fn send<T>(sender: &crossbeam::channel::Sender<T>, message: T) -> (sent: bool) {
    sender.send(message).is_ok()
}

/// Takes the next message from the queue with `Receiver::recv`. The call
/// waits until a message is there, for as long as that takes, and gives
/// nothing only where the queue is empty and every sending end is gone.
#[verifier::external_body]
fn receive<T>(receiver: &crossbeam::channel::Receiver<T>) -> (message: Option<T>) {
    receiver.recv().ok()
}

/// Takes the next message from the queue with `Receiver::try_recv`, which
/// does not wait: it gives a message, or says that the queue is empty, or
/// that it is empty and every sending end is gone.
#[verifier::external_body]
fn try_receive<T>(receiver: &crossbeam::channel::Receiver<T>) -> (attempt: Attempt<T>) {
    match receiver.try_recv() {
        Ok(message) => Attempt::Message(message),
        Err(crossbeam::channel::TryRecvError::Empty) => Attempt::Empty,
        Err(crossbeam::channel::TryRecvError::Disconnected) => Attempt::Disconnected,
    }
}

/// The number of messages in the queue at the moment of the call, as
/// `Receiver::len` gives it.
#[verifier::external_body]
fn waiting<T>(receiver: &crossbeam::channel::Receiver<T>) -> (count: usize) {
    receiver.len()
}

/// Another sending end of the same queue, made with `Sender::clone`.
#[verifier::external_body]
fn share_sender<T>(sender: &crossbeam::channel::Sender<T>) -> (shared: crossbeam::channel::Sender<
    T,
>) {
    sender.clone()
}

/// Another receiving end of the same queue, made with `Receiver::clone`.
#[verifier::external_body]
fn share_receiver<T>(receiver: &crossbeam::channel::Receiver<T>) -> (shared:
    crossbeam::channel::Receiver<T>) {
    receiver.clone()
}

/// The number of logical cores of the machine, as `num_cpus::get` gives it:
/// at least one.
#[verifier::external_body]
fn logical_cores() -> (count: usize)
    ensures
        count >= 1,
{
    num_cpus::get()
}

/// What taking a result without waiting comes to: a result, none yet, or
/// the failure that no result can come any more.
pub fn attempt_to_result<R>(attempt: Attempt<R>) -> (result: Result<Option<R>, ()>)
    ensures
        result == match attempt {
            Attempt::Message(message) => Ok::<Option<R>, ()>(Some(message)),
            Attempt::Empty => Ok(None),
            Attempt::Disconnected => Err(()),
        },
{
    match attempt {
        Attempt::Message(message) => Ok(Some(message)),
        Attempt::Empty => Ok(None),
        Attempt::Disconnected => Err(()),
    }
}

/// What waiting for a result comes to: the result, or the failure that no
/// result can come any more.
pub fn message_to_result<R>(message: Option<R>) -> (result: Result<R, ()>)
    ensures
        result == match message {
            Some(found) => Ok::<R, ()>(found),
            None => Err(()),
        },
{
    match message {
        Some(found) => Ok(found),
        None => Err(()),
    }
}

/// What putting a unit of work into the queue comes to: done, or the
/// failure that the queue took it no more.
pub fn sent_to_result(sent: bool) -> (result: Result<(), ()>)
    ensures
        result == if sent {
            Ok::<(), ()>(())
        } else {
            Err(())
        },
{
    if sent {
        Ok(())
    } else {
        Err(())
    }
}

/// The message that hands a unit of work to a worker.
pub fn work_message<W>(work: W) -> (message: Work<W>)
    ensures
        message == Work::Work(work),
{
    Work::Work(work)
}

/// The orders to end for `count` workers: one for each.
pub fn orders_to_end<W>(count: usize) -> (orders: Vec<Work<W>>)
    ensures
        orders@.len() == count,
        forall|i: int| 0 <= i < count ==> orders@[i] is Close,
{
    let mut orders: Vec<Work<W>> = Vec::new();
    let mut made: usize = 0;
    while made < count
        invariant
            made <= count,
            orders@.len() == made,
            forall|i: int| 0 <= i < made ==> orders@[i] is Close,
        decreases count - made,
    {
        orders.push(Work::Close);
        made = made + 1;
    }
    orders
}

/// Whether a queue that holds `count` messages holds any.
pub fn some_waiting(count: usize) -> (any: bool)
    ensures
        any == (count > 0),
{
    count > 0
}

/// Puts what an attempt gave at the end of `results` and says whether to go
/// on: a message is kept, and more may follow; an empty queue and one that
/// is gone give nothing, and nothing follows.
pub fn keep_result<R>(attempt: Attempt<R>, results: &mut Vec<R>) -> (more: bool)
    ensures
        match attempt {
            Attempt::Message(message) => more && final(results)@ == old(results)@.push(message),
            Attempt::Empty => !more && final(results)@ == old(results)@,
            Attempt::Disconnected => !more && final(results)@ == old(results)@,
        },
{
    match attempt {
        Attempt::Message(message) => {
            results.push(message);
            true
        },
        Attempt::Empty => false,
        Attempt::Disconnected => false,
    }
}

/// A worker's end of the pool: the shared context, the queue it takes its
/// work from and the queue it puts its results into. It keeps a record of
/// every result it handed to the queue of results, and counts those that
/// the queue took.
#[verifier::reject_recursive_types(W)]
#[verifier::reject_recursive_types(R)]
pub struct WorkerLink<CTX: WorkContext, W: WorkData, R: WorkResult> {
    context: CTX,
    work_receiver: crossbeam::channel::Receiver<Work<W>>,
    result_sender: crossbeam::channel::Sender<R>,
    handed: Ghost<Seq<R>>,
    taken: Ghost<nat>,
}

impl<CTX: WorkContext, W: WorkData, R: WorkResult> WorkerLink<CTX, W, R> {
    /// The context that the link holds: a copy of the pool's.
    pub closed spec fn shared(self) -> CTX {
        self.context
    }

    /// The results that the link handed to the queue of results, in their
    /// order.
    pub closed spec fn handed(self) -> Seq<R> {
        self.handed@
    }

    /// How many results the queue took from the link.
    pub closed spec fn taken(self) -> nat {
        self.taken@
    }

    /// The context that all workers of the pool share.
    pub fn context(&self) -> (context: &CTX)
        ensures
            *context == self.shared(),
    {
        &self.context
    }

    /// Waits for the next message of the pool and says what the worker is
    /// to do: work on the unit that came, or end, because the order to end
    /// came or the pool is gone.
    pub fn receive_work(&self) -> (work: Option<W>) {
        Self::work_of(receive(&self.work_receiver))
    }

    /// What a worker is to do on a message: work on a unit, or end on the
    /// order to end and on a queue that is gone.
    pub fn work_of(message: Option<Work<W>>) -> (work: Option<W>)
        ensures
            work == match message {
                Some(Work::Work(unit)) => Some(unit),
                Some(Work::Close) => None,
                None => None,
            },
    {
        match message {
            Some(Work::Work(unit)) => Some(unit),
            Some(Work::Close) => None,
            None => None,
        }
    }

    /// Hands a result to the pool. Gives `false` where the pool takes no
    /// results any more: the worker is then to end.
    pub fn send_result(&mut self, result: R) -> (sent: bool)
        ensures
            final(self).shared() == old(self).shared(),
            final(self).handed() == old(self).handed().push(result),
            final(self).taken() == old(self).taken() + if sent {
                1nat
            } else {
                0nat
            },
    {
        let ghost handed = self.handed@.push(result);
        let ghost taken = self.taken@;
        let sent = send(&self.result_sender, result);
        self.handed = Ghost(handed);
        self.taken = Ghost(
            if sent {
                taken + 1
            } else {
                taken
            },
        );
        sent
    }
}

/// The pool: its place in its life, the context, both ends of both queues
/// and the number of its workers. It keeps a record of every message it
/// handed to the queue of work, and counts the units that the queue took.
#[verifier::reject_recursive_types(W)]
#[verifier::reject_recursive_types(R)]
pub struct Workers<CTX: WorkContext, W: WorkData, R: WorkResult> {
    status: WorkersStatus,
    context: CTX,
    result_receiver: crossbeam::channel::Receiver<R>,
    result_sender: crossbeam::channel::Sender<R>,
    work_receiver: crossbeam::channel::Receiver<Work<W>>,
    work_sender: crossbeam::channel::Sender<Work<W>>,
    workers: usize,
    handed: Ghost<Seq<Work<W>>>,
    taken: Ghost<nat>,
}

impl<CTX: WorkContext, W: WorkData, R: WorkResult> Workers<CTX, W, R> {
    /// Where the pool stands in its life.
    pub closed spec fn status(self) -> WorkersStatus {
        self.status
    }

    /// The context that the pool was made with.
    pub closed spec fn shared(self) -> CTX {
        self.context
    }

    /// How many workers the pool was started with: none before it is
    /// started.
    pub closed spec fn worker_count(self) -> nat {
        self.workers as nat
    }

    /// The messages that the pool handed to the queue of work, in their
    /// order: units of work and orders to end.
    pub closed spec fn handed(self) -> Seq<Work<W>> {
        self.handed@
    }

    /// How many units of work the queue took from the pool.
    pub closed spec fn taken(self) -> nat {
        self.taken@
    }

    /// Nothing but the queues differs between the two pools: they stand at
    /// the same place in their life, with the same context and workers, and
    /// have handed over the same messages.
    pub open spec fn same_but_for_queues(self, other: Self) -> bool {
        &&& self.shared() == other.shared()
        &&& self.status() == other.status()
        &&& self.worker_count() == other.worker_count()
        &&& self.handed() == other.handed()
        &&& self.taken() == other.taken()
    }

    /// A pool that has its queues and its context, and no worker yet.
    pub fn create(context: CTX) -> (pool: Self)
        ensures
            pool.status() == WorkersStatus::Created,
            pool.worker_count() == 0,
            pool.shared() == context,
            pool.handed() == Seq::<Work<W>>::empty(),
            pool.taken() == 0,
    {
        let (result_sender, result_receiver) = unbounded();
        let (work_sender, work_receiver) = unbounded();
        Self {
            status: WorkersStatus::Created,
            context,
            result_receiver,
            result_sender,
            work_receiver,
            work_sender,
            workers: 0,
            handed: Ghost(Seq::empty()),
            taken: Ghost(0),
        }
    }

    /// Whether the pool runs, so that it takes work.
    pub fn is_running(&self) -> (running: bool)
        ensures
            running == (self.status() == WorkersStatus::Running),
    {
        self.status == WorkersStatus::Running
    }

    /// Starts the pool with `thread_count` workers, or with one worker for
    /// each logical core where no number is given, and hands out one link
    /// for each worker. A pool can be started once, and only before it was
    /// ever started.
    pub fn spin_up(&mut self, thread_count: Option<usize>) -> (links: Result<
        Vec<WorkerLink<CTX, W, R>>,
        (),
    >)
        ensures
            final(self).shared() == old(self).shared(),
            final(self).handed() == old(self).handed(),
            final(self).taken() == old(self).taken(),
            old(self).status() != WorkersStatus::Created ==> links is Err && final(self).status()
                == old(self).status() && final(self).worker_count() == old(self).worker_count(),
            links matches Ok(made) ==> forall|i: int|
                0 <= i < made@.len() ==> cloned(old(self).shared(), (#[trigger] made@[i]).shared())
                    && made@[i].handed() == Seq::<R>::empty() && made@[i].taken() == 0,
            old(self).status() == WorkersStatus::Created ==> links is Ok
                && links->Ok_0@.len() == final(self).worker_count() && final(self).status()
                == WorkersStatus::Running && match thread_count {
                Some(count) => final(self).worker_count() == count,
                None => final(self).worker_count() >= 1,
            },
    {
        if self.status != WorkersStatus::Created {
            return Err(());
        }
        let thread_count: usize = match thread_count {
            Some(count) => count,
            None => logical_cores(),
        };
        let mut links: Vec<WorkerLink<CTX, W, R>> = Vec::new();
        let mut started: usize = 0;
        while started < thread_count
            invariant
                started <= thread_count,
                links@.len() == started,
                *self == *old(self),
                forall|i: int|
                    0 <= i < links@.len() ==> cloned(
                        old(self).shared(),
                        (#[trigger] links@[i]).shared(),
                    ) && links@[i].handed() == Seq::<R>::empty() && links@[i].taken() == 0,
            decreases thread_count - started,
        {
            let link = WorkerLink {
                context: self.context.clone(),
                work_receiver: share_receiver(&self.work_receiver),
                result_sender: share_sender(&self.result_sender),
                handed: Ghost(Seq::empty()),
                taken: Ghost(0),
            };
            links.push(link);
            started = started + 1;
        }
        self.workers = thread_count;
        self.status = WorkersStatus::Running;
        Ok(links)
    }

    /// Stops a running pool: hands the order to end to the queue of work
    /// once for each worker, behind all work that was added before, which
    /// is therefore still worked off first. Where the queue is gone no
    /// worker is left to stop, which is no failure.
    pub fn shut_down(&mut self) -> (stopped: Result<(), ()>)
        ensures
            final(self).shared() == old(self).shared(),
            final(self).worker_count() == old(self).worker_count(),
            final(self).taken() == old(self).taken(),
            old(self).status() != WorkersStatus::Running ==> stopped is Err && final(self).status()
                == old(self).status() && final(self).handed() == old(self).handed(),
            old(self).status() == WorkersStatus::Running ==> stopped is Ok && final(self).status()
                == WorkersStatus::Stopped && final(self).handed() == old(self).handed() + Seq::new(
                old(self).worker_count(),
                |i: int| Work::<W>::Close,
            ),
    {
        if self.status != WorkersStatus::Running {
            return Err(());
        }
        let orders = orders_to_end::<W>(self.workers);
        let ghost all = orders@;
        for order in sent: orders
            invariant
                sent.seq() == all,
                all.len() == old(self).worker_count(),
                forall|i: int| 0 <= i < all.len() ==> all[i] is Close,
                self.shared() == old(self).shared(),
                self.status() == old(self).status(),
                self.worker_count() == old(self).worker_count(),
                self.taken() == old(self).taken(),
                self.handed() == old(self).handed() + all.take(sent.index() as int),
        {
            let ghost message = order;
            let ghost before = self.handed@;
            send(&self.work_sender, order);
            self.handed = Ghost(before.push(message));
            proof {
                assert(all.take(sent.index() + 1) == all.take(sent.index() as int).push(message));
            }
        }
        proof {
            assert(all.take(all.len() as int) == all);
            assert(all == Seq::new(old(self).worker_count(), |i: int| Work::<W>::Close));
        }
        self.status = WorkersStatus::Stopped;
        Ok(())
    }

    /// Adds a unit of work for the workers. Only a running pool takes work:
    /// it hands the unit to the queue of work, and the unit is added if the
    /// queue took it.
    pub fn add_work(&mut self, work: W) -> (added: Result<(), ()>)
        ensures
            final(self).shared() == old(self).shared(),
            final(self).status() == old(self).status(),
            final(self).worker_count() == old(self).worker_count(),
            old(self).status() != WorkersStatus::Running ==> added is Err && final(self).handed()
                == old(self).handed(),
            old(self).status() == WorkersStatus::Running ==> final(self).handed() == old(
                self,
            ).handed().push(Work::Work(work)),
            added is Ok ==> final(self).taken() == old(self).taken() + 1,
            added is Err ==> final(self).taken() == old(self).taken(),
    {
        if self.status != WorkersStatus::Running {
            return Err(());
        }
        let message = work_message(work);
        let ghost handed = self.handed@.push(message);
        let ghost taken = self.taken@;
        let sent = send(&self.work_sender, message);
        self.handed = Ghost(handed);
        self.taken = Ghost(
            if sent {
                taken + 1
            } else {
                taken
            },
        );
        sent_to_result(sent)
    }

    /// Waits for the next result.
    pub fn receive_result(&mut self) -> (result: Result<R, ()>)
        ensures
            final(self).same_but_for_queues(*old(self)),
    {
        message_to_result(receive(&self.result_receiver))
    }

    /// Takes the next result if one is there, without waiting.
    pub fn try_receive_result(&mut self) -> (result: Result<Option<R>, ()>)
        ensures
            final(self).same_but_for_queues(*old(self)),
    {
        attempt_to_result(try_receive(&self.result_receiver))
    }

    /// Takes the results that are there, without waiting for more: at most
    /// as many as were there when the call began.
    pub fn collect_finished(&mut self) -> (results: Vec<R>)
        ensures
            final(self).same_but_for_queues(*old(self)),
    {
        let available: usize = waiting(&self.result_receiver);
        self.collect_up_to(available)
    }

    /// Takes the results that are there, without waiting for more, but no
    /// more than `limit` of them: it ends with the first attempt that
    /// finds none.
    pub fn collect_up_to(&mut self, limit: usize) -> (results: Vec<R>)
        ensures
            results@.len() <= limit,
            final(self).same_but_for_queues(*old(self)),
    {
        let mut results: Vec<R> = Vec::new();
        let mut taken: usize = 0;
        let mut more: bool = true;
        while more && taken < limit
            invariant
                taken <= limit,
                results@.len() <= taken,
            decreases limit - taken,
        {
            more = keep_result(try_receive(&self.result_receiver), &mut results);
            taken = taken + 1;
        }
        results
    }

    /// Whether work is left in the queue that no worker has taken yet.
    pub fn has_work_left(&self) -> (any: bool) {
        some_waiting(waiting(&self.work_receiver))
    }

    /// Whether a result is there to be taken.
    pub fn has_results(&self) -> (any: bool) {
        some_waiting(waiting(&self.result_receiver))
    }
}

} // verus!
