//! The dispatch queue: the bookkeeping of a fixed pool of workers that run
//! tasks from a first-in-first-out queue, with a barrier and cooperative
//! cancellation.
//!
//! This module decides; it does not run threads. A pool keeps one
//! [`DispatchQueue`] behind its lock and asks it at every event what follows:
//! a task arrives ([`DispatchQueue::dispatch`]), a worker is free
//! ([`DispatchQueue::next_task`]), a task has returned
//! ([`DispatchQueue::complete`]), a caller waits at the barrier
//! ([`DispatchQueue::finish`]). Because the count of tasks in flight is part
//! of the state, "the queue is empty" and "the last task has returned" are
//! seen together or not at all.

use vstd::prelude::*;
use std::collections::VecDeque;

verus! {

/// The state of a dispatch queue, as contracts see it.
pub struct DispatchView<T> {
    /// The tasks that wait, the oldest first.
    pub pending: Seq<T>,
    /// The size of the pool.
    pub workers: nat,
    /// How many tasks have been handed to a worker and have not returned.
    pub in_flight: nat,
    /// Quit was signaled: no task is accepted or handed out any more.
    pub quit: bool,
    /// The barrier is open: a caller of `finish` need not wait.
    pub finished: bool,
    /// A task has been accepted at some time.
    pub started: bool,
    /// Some task that returned signaled stop.
    pub result: bool,
    /// How many tasks have been accepted.
    pub dispatched: nat,
    /// How many tasks have returned.
    pub completed: nat,
    /// How many accepted tasks were dropped before a worker took them.
    pub discarded: nat,
    /// A dump opened the barrier while tasks were still in flight, and some
    /// of them still are.
    pub cut_short: bool,
}

impl<T> DispatchView<T> {
    /// What holds of every state that the operations can reach.
    pub open spec fn wf(self) -> bool {
        &&& self.in_flight <= self.workers
        &&& self.dispatched == self.completed + self.in_flight + self.pending.len()
            + self.discarded
        &&& (self.quit ==> self.pending.len() == 0)
        &&& (self.finished ==> self.pending.len() == 0)
        &&& (self.finished && !self.cut_short ==> self.in_flight == 0)
        &&& (self.pending.len() == 0 && self.in_flight == 0 ==> self.finished)
        &&& (self.cut_short ==> self.in_flight > 0)
    }

    /// The state of a new queue for a pool of `workers`.
    pub open spec fn initial(workers: nat) -> Self {
        DispatchView {
            pending: Seq::empty(),
            workers,
            in_flight: 0,
            quit: false,
            finished: true,
            started: false,
            result: false,
            dispatched: 0,
            completed: 0,
            discarded: 0,
            cut_short: false,
        }
    }

    /// A task arrives. After quit it is dropped and nothing changes.
    pub open spec fn dispatch(self, task: T) -> Self {
        if self.quit {
            self
        } else {
            DispatchView {
                pending: self.pending.push(task),
                finished: false,
                started: true,
                dispatched: self.dispatched + 1,
                ..self
            }
        }
    }

    /// A free worker can be given a task.
    pub open spec fn can_take(self) -> bool {
        !self.quit && self.pending.len() > 0 && self.in_flight < self.workers
    }

    /// A free worker asks for work and gets the oldest task, if it can.
    pub open spec fn take(self) -> Self {
        if self.can_take() {
            DispatchView {
                pending: self.pending.subrange(1, self.pending.len() as int),
                in_flight: self.in_flight + 1,
                ..self
            }
        } else {
            self
        }
    }

    /// A task in flight returns, with its stop signal. A stop signal is
    /// quit: the tasks that wait are dropped. The barrier opens when nothing
    /// waits and nothing is in flight.
    pub open spec fn complete(self, stop: bool) -> Self {
        let in_flight = (self.in_flight - 1) as nat;
        let pending = if stop {
            Seq::empty()
        } else {
            self.pending
        };
        DispatchView {
            pending,
            in_flight,
            quit: self.quit || stop,
            finished: self.finished || (pending.len() == 0 && in_flight == 0),
            result: self.result || stop,
            completed: self.completed + 1,
            discarded: if stop {
                self.discarded + self.pending.len()
            } else {
                self.discarded
            },
            cut_short: self.cut_short && in_flight > 0,
            ..self
        }
    }

    /// The tasks that wait are dropped and the barrier opens at once; tasks
    /// in flight run on. Nothing changes after quit or behind an open
    /// barrier.
    pub open spec fn dump(self) -> Self {
        if self.quit || self.finished {
            self
        } else {
            DispatchView {
                pending: Seq::empty(),
                finished: true,
                discarded: self.discarded + self.pending.len(),
                cut_short: self.in_flight > 0,
                ..self
            }
        }
    }

    /// Quit is signaled and the tasks that wait are dropped.
    pub open spec fn shutdown(self) -> Self {
        DispatchView {
            pending: Seq::empty(),
            quit: true,
            finished: self.finished || self.in_flight == 0,
            discarded: self.discarded + self.pending.len(),
            ..self
        }
    }

    /// What a caller at the barrier is told: nothing while it has to wait,
    /// and whether a task signaled stop once the barrier is open.
    pub open spec fn poll_finish(self) -> Option<bool> {
        if self.finished {
            Some(self.result)
        } else {
            None
        }
    }
}

/// Every operation leads from a well-formed state to a well-formed state.
pub proof fn lemma_operations_keep_wf<T>(s: DispatchView<T>, task: T, stop: bool)
    requires
        s.wf(),
    ensures
        DispatchView::<T>::initial(s.workers).wf(),
        s.dispatch(task).wf(),
        s.take().wf(),
        s.in_flight > 0 ==> s.complete(stop).wf(),
        s.dump().wf(),
        s.shutdown().wf(),
{
}

/// The barrier: where it is open and no dump has cut it short, no task
/// waits and none is in flight, so every accepted task has returned or was
/// dropped. With nothing dropped, as many tasks have returned as were
/// accepted.
pub proof fn lemma_barrier<T>(s: DispatchView<T>)
    requires
        s.wf(),
        s.finished,
        !s.cut_short,
    ensures
        s.pending.len() == 0,
        s.in_flight == 0,
        s.dispatched == s.completed + s.discarded,
        s.discarded == 0 ==> s.completed == s.dispatched,
{
}

/// While a task waits or is in flight, and no dump has intervened, the
/// barrier stays shut.
pub proof fn lemma_barrier_holds<T>(s: DispatchView<T>)
    requires
        s.wf(),
        !s.cut_short,
        s.pending.len() + s.in_flight > 0,
    ensures
        s.poll_finish() is None,
{
}

/// After quit a task that arrives changes nothing, and no worker is given a
/// task.
pub proof fn lemma_quit_is_final<T>(s: DispatchView<T>, task: T, stop: bool)
    requires
        s.wf(),
        s.quit,
    ensures
        s.dispatch(task) == s,
        s.take() == s,
        !s.can_take(),
        s.dispatch(task).quit,
        s.in_flight > 0 ==> s.complete(stop).quit,
        s.dump().quit,
        s.shutdown().quit,
{
}

/// Shutdown signals quit, leaves no task waiting, and a second shutdown
/// changes nothing.
pub proof fn lemma_shutdown<T>(s: DispatchView<T>)
    requires
        s.wf(),
    ensures
        s.shutdown().quit,
        s.shutdown().pending.len() == 0,
        !s.shutdown().can_take(),
        s.shutdown().shutdown() == s.shutdown(),
{
    assert(s.shutdown().shutdown().pending =~= s.shutdown().pending);
}

/// A task that returns with the stop signal is quit for the whole queue, and
/// the barrier reports it.
pub proof fn lemma_stop_signal<T>(s: DispatchView<T>)
    requires
        s.wf(),
        s.in_flight > 0,
    ensures
        s.complete(true).quit,
        s.complete(true).result,
        s.complete(true).pending.len() == 0,
        s.in_flight == 1 ==> s.complete(true).poll_finish() == Some(true),
{
}

/// What a worker that asks for work is told.
pub enum WorkerStep<T> {
    /// Run what is handed over, then report its return with `complete`.
    Run(T),
    /// There is nothing to run: wait for a wake-up and ask again.
    Wait,
    /// Quit was signaled: leave.
    Exit,
}

/// The state of a dispatch queue that holds tasks of type `T`.
pub struct DispatchQueue<T> {
    queue: VecDeque<T>,
    workers: usize,
    running: usize,
    quit: bool,
    is_finished: bool,
    is_started: bool,
    result: bool,
    dispatched: Ghost<nat>,
    completed: Ghost<nat>,
    discarded: Ghost<nat>,
    cut_short: Ghost<bool>,
}

impl<T> View for DispatchQueue<T> {
    type V = DispatchView<T>;

    closed spec fn view(&self) -> DispatchView<T> {
        DispatchView {
            pending: self.queue@,
            workers: self.workers as nat,
            in_flight: self.running as nat,
            quit: self.quit,
            finished: self.is_finished,
            started: self.is_started,
            result: self.result,
            dispatched: self.dispatched@,
            completed: self.completed@,
            discarded: self.discarded@,
            cut_short: self.cut_short@,
        }
    }
}

impl<T> DispatchQueue<T> {
    /// The queue is in a state that the operations can reach.
    pub open spec fn wf(&self) -> bool {
        self@.wf()
    }

    /// A queue for a pool of `n` workers: nothing waits, nothing runs, and
    /// the barrier is open.
    pub fn new(n: usize) -> (queue: Self)
        ensures
            queue.wf(),
            queue@ == DispatchView::<T>::initial(n as nat),
    {
        DispatchQueue {
            queue: VecDeque::new(),
            workers: n,
            running: 0,
            quit: false,
            is_finished: true,
            is_started: false,
            result: false,
            dispatched: Ghost(0),
            completed: Ghost(0),
            discarded: Ghost(0),
            cut_short: Ghost(false),
        }
    }

    /// Forgets that a task signaled stop.
    pub fn reset_result(&mut self)
        requires
            old(self).wf(),
        ensures
            final(self).wf(),
            final(self)@ == (DispatchView { result: false, ..old(self)@ }),
    {
        self.result = false;
    }

    /// Puts `op` at the end of the queue and shuts the barrier. Returns
    /// whether the task was accepted, which is when workers are to be woken;
    /// after quit it is not, and the task is dropped.
    pub fn dispatch(&mut self, op: T) -> (accepted: bool)
        requires
            old(self).wf(),
        ensures
            final(self).wf(),
            final(self)@ == old(self)@.dispatch(op),
            accepted == !old(self)@.quit,
    {
        if self.quit {
            return false;
        }
        self.queue.push_back(op);
        self.is_finished = false;
        self.is_started = true;
        proof {
            self.dispatched@ = self.dispatched@ + 1;
        }
        true
    }

    /// What a caller at the barrier is told now: `None` while a task
    /// dispatched before still waits or runs, so that the caller has to wait
    /// and ask again; `Some(stopped)` once the barrier is open, where
    /// `stopped` says whether a task signaled stop.
    pub fn finish(&self) -> (stopped: Option<bool>)
        requires
            self.wf(),
        ensures
            stopped == self@.poll_finish(),
    {
        if self.is_finished {
            Some(self.result)
        } else {
            None
        }
    }

    /// Drops the tasks that wait and opens the barrier at once. Tasks in
    /// flight are not interrupted.
    pub fn dump(&mut self)
        requires
            old(self).wf(),
        ensures
            final(self).wf(),
            final(self)@ == old(self)@.dump(),
    {
        if self.quit {
            return ;
        }
        if self.is_finished {
            return ;
        }
        proof {
            self.discarded@ = self.discarded@ + self.queue@.len();
            self.cut_short@ = self.running > 0;
        }
        self.queue.clear();
        self.is_finished = true;
    }

    /// One turn of a worker's loop: what the worker that asks is to do next.
    /// It is handed the oldest task where one waits and the pool has a
    /// worker to spare, told to leave after quit, and told to wait
    /// otherwise.
    pub fn next_task(&mut self) -> (step: WorkerStep<T>)
        requires
            old(self).wf(),
        ensures
            final(self).wf(),
            final(self)@ == old(self)@.take(),
            match step {
                WorkerStep::Run(task) => old(self)@.can_take() && task == old(self)@.pending[0],
                WorkerStep::Wait => !old(self)@.quit && !old(self)@.can_take(),
                WorkerStep::Exit => old(self)@.quit,
            },
    {
        if self.quit {
            return WorkerStep::Exit;
        }
        if self.running >= self.workers {
            return WorkerStep::Wait;
        }
        match self.queue.pop_front() {
            Some(task) => {
                self.running = self.running + 1;
                WorkerStep::Run(task)
            },
            None => WorkerStep::Wait,
        }
    }

    /// The other turn of a worker's loop: a task has returned, with `stop`
    /// as its signal. Returns whether the barrier is open, which is when
    /// the callers that wait at it are to be woken.
    pub fn complete(&mut self, stop: bool) -> (open: bool)
        requires
            old(self).wf(),
            old(self)@.in_flight > 0,
        ensures
            final(self).wf(),
            final(self)@ == old(self)@.complete(stop),
            open == final(self)@.finished,
    {
        self.running = self.running - 1;
        proof {
            self.completed@ = self.completed@ + 1;
        }
        if stop {
            proof {
                self.discarded@ = self.discarded@ + self.queue@.len();
            }
            self.result = true;
            self.quit = true;
            self.queue.clear();
        }
        if self.running == 0 {
            proof {
                self.cut_short@ = false;
            }
            if self.queue.len() == 0 {
                self.is_finished = true;
            }
        }
        self.is_finished
    }

    /// Signals quit and drops the tasks that wait. The pool then wakes its
    /// workers, which are told to leave, and joins them.
    pub fn shutdown(&mut self)
        requires
            old(self).wf(),
        ensures
            final(self).wf(),
            final(self)@ == old(self)@.shutdown(),
    {
        proof {
            self.discarded@ = self.discarded@ + self.queue@.len();
        }
        self.quit = true;
        self.queue.clear();
        if self.running == 0 {
            self.is_finished = true;
        }
    }

    /// Whether quit was signaled.
    pub fn is_quit(&self) -> (quit: bool)
        ensures
            quit == self@.quit,
    {
        self.quit
    }

    /// How many tasks wait.
    pub fn pending_len(&self) -> (len: usize)
        ensures
            len == self@.pending.len(),
    {
        self.queue.len()
    }

    /// How many tasks are in flight.
    pub fn in_flight(&self) -> (running: usize)
        ensures
            running == self@.in_flight,
    {
        self.running
    }
}

} // verus!
