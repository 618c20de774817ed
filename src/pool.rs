//! The dispatch core of a fixed-size worker pool.
//!
//! All the decisions of the pool live here: whether a task is accepted, the
//! order in which messages reach the workers, which state each worker is in,
//! and how shutdown hands every worker exactly one stop signal. The threads,
//! the lock around a `Dispatcher` and the waiting on an empty queue are left
//! to the code that runs the pool; because `submit` and `close` each take
//! `&mut self`, a caller that holds the dispatcher under one lock makes
//! "check the state, then enqueue" a single step relative to shutdown.
use std::collections::VecDeque;
use vstd::prelude::*;

verus! {

/// A unit of work that a worker runs to completion.
pub trait Job: Send {
    fn run(&self);
}

/// What travels through the queue: a task to run, or an order to stop.
pub enum Message<T> {
    Run(T),
    Stop,
}

#[derive(PartialEq, Eq, Structural, Clone, Copy, Debug)]
pub enum PoolState {
    Running,
    Closed,
}

#[derive(PartialEq, Eq, Structural, Clone, Copy, Debug)]
pub enum WorkerState {
    /// Blocked on the queue, ready for the next message.
    Waiting,
    /// Running a task that it took from the queue.
    Executing,
    /// Took a stop signal; it takes nothing more.
    Terminated,
}

/// Why a pool could not be built.
#[derive(PartialEq, Eq, Structural, Clone, Copy, Debug)]
pub enum PoolError {
    NoWorkers,
}

/// Why a task was not scheduled.
#[derive(PartialEq, Eq, Structural, Clone, Copy, Debug)]
pub enum SubmitError {
    /// The pool has been closed; the task was not enqueued.
    Rejected,
}

/// The abstract state of a dispatcher.
pub struct PoolView<T> {
    pub state: PoolState,
    pub queue: Seq<Message<T>>,
    pub workers: Seq<WorkerState>,
    /// Every task accepted so far, in order of acceptance.
    pub submitted: Seq<T>,
    /// Every task handed to a worker so far, in order of delivery.
    pub delivered: Seq<T>,
}

/// The tasks carried by the `Run` messages of `q`, in queue order.
pub open spec fn runs<T>(q: Seq<Message<T>>) -> Seq<T>
    decreases q.len(),
{
    if q.len() == 0 {
        Seq::empty()
    } else {
        let rest = runs(q.drop_last());
        match q.last() {
            Message::Run(t) => rest.push(t),
            Message::Stop => rest,
        }
    }
}

/// The number of `Stop` messages in `q`.
pub open spec fn stops<T>(q: Seq<Message<T>>) -> nat
    decreases q.len(),
{
    if q.len() == 0 {
        0
    } else {
        stops(q.drop_last()) + if q.last() is Stop { 1nat } else { 0nat }
    }
}

/// The number of workers in `ws` that have not terminated.
pub open spec fn live(ws: Seq<WorkerState>) -> nat
    decreases ws.len(),
{
    if ws.len() == 0 {
        0
    } else {
        live(ws.drop_last()) + if ws.last() == WorkerState::Terminated { 0nat } else { 1nat }
    }
}

/// `n` stop signals.
pub open spec fn stop_signals<T>(n: nat) -> Seq<Message<T>> {
    Seq::new(n, |i: int| Message::Stop)
}

impl<T> PoolView<T> {
    /// No `Run` message stands after a `Stop` message.
    pub open spec fn stops_last(self) -> bool {
        forall|i: int, j: int|
            0 <= i < j < self.queue.len() && (#[trigger] self.queue[i]) is Stop
                ==> (#[trigger] self.queue[j]) is Stop
    }

    pub open spec fn wf(self) -> bool {
        &&& self.workers.len() >= 1
        &&& self.submitted == self.delivered + runs(self.queue)
        &&& self.stops_last()
        &&& self.state == PoolState::Running ==> {
            &&& stops(self.queue) == 0
            &&& live(self.workers) == self.workers.len()
        }
        &&& self.state == PoolState::Closed ==> {
            &&& stops(self.queue) == live(self.workers)
            &&& live(self.workers) < self.workers.len() ==> forall|i: int|
                0 <= i < self.queue.len() ==> (#[trigger] self.queue[i]) is Stop
        }
    }

    /// The pool just built with `n` workers.
    pub open spec fn fresh(n: nat) -> Self {
        PoolView {
            state: PoolState::Running,
            queue: Seq::empty(),
            workers: Seq::new(n, |i: int| WorkerState::Waiting),
            submitted: Seq::empty(),
            delivered: Seq::empty(),
        }
    }

    /// The effect of submitting `t`: accepted while running, no change once closed.
    pub open spec fn after_submit(self, t: T) -> Self {
        if self.state == PoolState::Running {
            PoolView {
                queue: self.queue.push(Message::Run(t)),
                submitted: self.submitted.push(t),
                ..self
            }
        } else {
            self
        }
    }

    /// The effect of closing: the first close enqueues one stop signal per
    /// worker; any later close changes nothing.
    pub open spec fn after_close(self) -> Self {
        if self.state == PoolState::Running {
            PoolView {
                state: PoolState::Closed,
                queue: self.queue + stop_signals(self.workers.len()),
                ..self
            }
        } else {
            self
        }
    }

    /// The effect of worker `id` taking the front message of the queue: a
    /// task makes it execute and is delivered; a stop signal terminates it.
    pub open spec fn after_receive(self, id: int) -> Self {
        let rest = self.queue.drop_first();
        match self.queue[0] {
            Message::Run(t) => PoolView {
                queue: rest,
                workers: self.workers.update(id, WorkerState::Executing),
                delivered: self.delivered.push(t),
                ..self
            },
            Message::Stop => PoolView {
                queue: rest,
                workers: self.workers.update(id, WorkerState::Terminated),
                ..self
            },
        }
    }

    /// The effect of worker `id` finishing its task: it waits again.
    pub open spec fn after_finish(self, id: int) -> Self {
        PoolView { workers: self.workers.update(id, WorkerState::Waiting), ..self }
    }

    /// Every worker has taken its stop signal.
    pub open spec fn all_terminated(self) -> bool {
        forall|i: int| 0 <= i < self.workers.len() ==> self.workers[i] == WorkerState::Terminated
    }
}

pub struct Dispatcher<T> {
    state: PoolState,
    queue: VecDeque<Message<T>>,
    workers: Vec<WorkerState>,
    submitted: Ghost<Seq<T>>,
    delivered: Ghost<Seq<T>>,
}

impl<T> View for Dispatcher<T> {
    type V = PoolView<T>;

    closed spec fn view(&self) -> PoolView<T> {
        PoolView {
            state: self.state,
            queue: self.queue@,
            workers: self.workers@,
            submitted: self.submitted@,
            delivered: self.delivered@,
        }
    }
}

impl<T> Dispatcher<T> {
    /// Builds the dispatch state of a pool of `n` workers, all waiting.
    pub fn new(n: usize) -> (r: Result<Self, PoolError>)
        ensures
            n == 0 <==> r is Err,
            r matches Ok(d) ==> d@ == PoolView::<T>::fresh(n as nat) && d@.wf(),
            r matches Err(e) ==> e == PoolError::NoWorkers,
    {
        if n == 0 {
            return Err(PoolError::NoWorkers);
        }
        let mut workers: Vec<WorkerState> = Vec::with_capacity(n);
        let mut i: usize = 0;
        while i < n
            invariant
                i <= n,
                workers@ == Seq::new(i as nat, |k: int| WorkerState::Waiting),
            decreases n - i,
        {
            workers.push(WorkerState::Waiting);
            i = i + 1;
        }
        let d = Dispatcher {
            state: PoolState::Running,
            queue: VecDeque::new(),
            workers,
            submitted: Ghost(Seq::empty()),
            delivered: Ghost(Seq::empty()),
        };
        assert(d@.workers =~= Seq::new(n as nat, |k: int| WorkerState::Waiting));
        proof {
            lemma_live_all_waiting(n as nat);
        }
        assert(d@.submitted =~= d@.delivered + runs(d@.queue));
        Ok(d)
    }

    /// Takes a task for the queue: accepted while the pool runs, rejected
    /// without any change once it is closed.
    pub fn submit(&mut self, task: T) -> (r: Result<(), SubmitError>)
        requires
            old(self)@.wf(),
        ensures
            final(self)@.wf(),
            final(self)@ == old(self)@.after_submit(task),
            r is Ok <==> old(self)@.state == PoolState::Running,
            r matches Err(e) ==> e == SubmitError::Rejected,
    {
        if self.state == PoolState::Closed {
            return Err(SubmitError::Rejected);
        }
        let ghost v0 = self@;
        self.queue.push_back(Message::Run(task));
        self.submitted = Ghost(self.submitted@.push(task));
        proof {
            lemma_submit_wf(v0, task);
        }
        Ok(())
    }

    /// Closes the pool. The first call enqueues one stop signal per worker
    /// and returns `true`; a later call changes nothing and returns `false`.
    pub fn close(&mut self) -> (first: bool)
        requires
            old(self)@.wf(),
        ensures
            final(self)@.wf(),
            final(self)@ == old(self)@.after_close(),
            first == (old(self)@.state == PoolState::Running),
    {
        if self.state == PoolState::Closed {
            return false;
        }
        let ghost v0 = self@;
        let n = self.workers.len();
        let mut i: usize = 0;
        while i < n
            invariant
                n == self.workers@.len(),
                i <= n,
                self.queue@ == v0.queue + stop_signals::<T>(i as nat),
                self.state == old(self).state,
                self.workers@ == old(self).workers@,
                self.submitted@ == old(self).submitted@,
                self.delivered@ == old(self).delivered@,
            decreases n - i,
        {
            self.queue.push_back(Message::Stop);
            i = i + 1;
            assert(self.queue@ =~= v0.queue + stop_signals::<T>(i as nat));
        }
        self.state = PoolState::Closed;
        proof {
            lemma_close_wf(v0);
        }
        true
    }

    /// Worker `id`, waiting, takes the front message of the queue, if any.
    /// With an empty queue nothing changes and the worker keeps waiting.
    pub fn receive(&mut self, id: usize) -> (m: Option<Message<T>>)
        requires
            old(self)@.wf(),
            id < old(self)@.workers.len(),
            old(self)@.workers[id as int] == WorkerState::Waiting,
        ensures
            final(self)@.wf(),
            old(self)@.queue.len() == 0 ==> m is None && final(self)@ == old(self)@,
            old(self)@.queue.len() > 0 ==> m == Some(old(self)@.queue[0]) && final(self)@
                == old(self)@.after_receive(id as int),
    {
        let ghost v0 = self@;
        let m = self.queue.pop_front();
        match &m {
            None => {},
            Some(Message::Run(t)) => {
                self.workers.set(id, WorkerState::Executing);
                self.delivered = Ghost(self.delivered@.push(*t));
            },
            Some(Message::Stop) => {
                self.workers.set(id, WorkerState::Terminated);
            },
        }
        proof {
            if v0.queue.len() > 0 {
                lemma_receive_wf(v0, id as int);
                assert(self.queue@ =~= v0.queue.drop_first());
                assert(self@ =~= v0.after_receive(id as int));
            }
        }
        m
    }

    pub fn state(&self) -> (r: PoolState)
        ensures
            r == self@.state,
    {
        self.state
    }

    pub fn is_closed(&self) -> (r: bool)
        ensures
            r == (self@.state == PoolState::Closed),
    {
        self.state == PoolState::Closed
    }

    /// The number of workers, fixed when the pool was built.
    pub fn worker_count(&self) -> (r: usize)
        ensures
            r == self@.workers.len(),
    {
        self.workers.len()
    }

    pub fn worker_state(&self, id: usize) -> (r: WorkerState)
        requires
            id < self@.workers.len(),
        ensures
            r == self@.workers[id as int],
    {
        self.workers[id]
    }

    /// The number of messages waiting in the queue.
    pub fn pending(&self) -> (r: usize)
        ensures
            r == self@.queue.len(),
    {
        self.queue.len()
    }

    /// Whether every worker has taken its stop signal.
    pub fn is_stopped(&self) -> (r: bool)
        ensures
            r == self@.all_terminated(),
    {
        let n = self.workers.len();
        let mut i: usize = 0;
        while i < n
            invariant
                n == self@.workers.len(),
                i <= n,
                forall|k: int| 0 <= k < i ==> self@.workers[k] == WorkerState::Terminated,
            decreases n - i,
        {
            if self.workers[i] != WorkerState::Terminated {
                return false;
            }
            i = i + 1;
        }
        true
    }

    /// Worker `id` is done with its task and waits for the next message.
    pub fn finish(&mut self, id: usize)
        requires
            old(self)@.wf(),
            id < old(self)@.workers.len(),
            old(self)@.workers[id as int] == WorkerState::Executing,
        ensures
            final(self)@.wf(),
            final(self)@ == old(self)@.after_finish(id as int),
    {
        let ghost v0 = self@;
        self.workers.set(id, WorkerState::Waiting);
        proof {
            lemma_live_update(v0.workers, id as int, WorkerState::Waiting);
            assert(self@ =~= v0.after_finish(id as int));
        }
    }
}

proof fn lemma_live_all_waiting(n: nat)
    ensures
        live(Seq::new(n, |k: int| WorkerState::Waiting)) == n,
    decreases n,
{
    if n > 0 {
        lemma_live_all_waiting((n - 1) as nat);
        assert(Seq::new(n, |k: int| WorkerState::Waiting).drop_last() =~= Seq::new(
            (n - 1) as nat,
            |k: int| WorkerState::Waiting,
        ));
    }
}

proof fn lemma_runs_single<T>(m: Message<T>)
    ensures
        runs(seq![m]) == (match m {
            Message::Run(t) => seq![t],
            Message::Stop => Seq::<T>::empty(),
        }),
        stops(seq![m]) == (if m is Stop { 1nat } else { 0nat }),
{
    assert(seq![m].drop_last() =~= Seq::<Message<T>>::empty());
    assert(seq![m].last() == m);
    assert(runs(Seq::<Message<T>>::empty()) == Seq::<T>::empty());
    assert(stops(Seq::<Message<T>>::empty()) == 0);
    assert(Seq::<T>::empty().push(m->Run_0) =~= seq![m->Run_0]);
}

proof fn lemma_no_stops<T>(q: Seq<Message<T>>)
    requires
        stops(q) == 0,
    ensures
        forall|i: int| 0 <= i < q.len() ==> (#[trigger] q[i]) is Run,
    decreases q.len(),
{
    if q.len() > 0 {
        lemma_no_stops(q.drop_last());
        assert forall|i: int| 0 <= i < q.len() implies (#[trigger] q[i]) is Run by {
            if i < q.len() - 1 {
                assert(q[i] == q.drop_last()[i]);
            }
        }
    }
}

proof fn lemma_runs_concat<T>(a: Seq<Message<T>>, b: Seq<Message<T>>)
    ensures
        runs(a + b) == runs(a) + runs(b),
    decreases b.len(),
{
    if b.len() == 0 {
        assert(a + b =~= a);
        assert(runs(a) + runs(b) =~= runs(a));
    } else {
        lemma_runs_concat(a, b.drop_last());
        assert((a + b).drop_last() =~= a + b.drop_last());
        assert((a + b).last() == b.last());
        match b.last() {
            Message::Run(t) => {
                assert(runs(a) + runs(b.drop_last()).push(t) =~= (runs(a) + runs(
                    b.drop_last(),
                )).push(t));
            },
            Message::Stop => {},
        }
    }
}

proof fn lemma_stops_concat<T>(a: Seq<Message<T>>, b: Seq<Message<T>>)
    ensures
        stops(a + b) == stops(a) + stops(b),
    decreases b.len(),
{
    if b.len() == 0 {
        assert(a + b =~= a);
    } else {
        lemma_stops_concat(a, b.drop_last());
        assert((a + b).drop_last() =~= a + b.drop_last());
        assert((a + b).last() == b.last());
    }
}

proof fn lemma_stop_signals<T>(n: nat)
    ensures
        runs(stop_signals::<T>(n)) == Seq::<T>::empty(),
        stops(stop_signals::<T>(n)) == n,
    decreases n,
{
    if n > 0 {
        lemma_stop_signals::<T>((n - 1) as nat);
        assert(stop_signals::<T>(n).drop_last() =~= stop_signals::<T>((n - 1) as nat));
    }
}

proof fn lemma_live_update(ws: Seq<WorkerState>, i: int, s: WorkerState)
    requires
        0 <= i < ws.len(),
    ensures
        live(ws.update(i, s)) + (if ws[i] == WorkerState::Terminated { 0nat } else { 1nat })
            == live(ws) + (if s == WorkerState::Terminated { 0nat } else { 1nat }),
    decreases ws.len(),
{
    let u = ws.update(i, s);
    assert(u.drop_last() =~= if i == ws.len() - 1 {
        ws.drop_last()
    } else {
        ws.drop_last().update(i, s)
    });
    if i < ws.len() - 1 {
        lemma_live_update(ws.drop_last(), i, s);
    }
}

proof fn lemma_live_bound(ws: Seq<WorkerState>)
    ensures
        live(ws) <= ws.len(),
    decreases ws.len(),
{
    if ws.len() > 0 {
        lemma_live_bound(ws.drop_last());
    }
}

/// Taking the front message keeps the dispatcher well formed.
proof fn lemma_receive_wf<T>(v: PoolView<T>, id: int)
    requires
        v.wf(),
        0 <= id < v.workers.len(),
        v.workers[id] == WorkerState::Waiting,
        v.queue.len() > 0,
    ensures
        v.after_receive(id).wf(),
{
    let q = v.queue;
    let rest = q.drop_first();
    assert(q =~= seq![q[0]] + rest);
    lemma_runs_concat(seq![q[0]], rest);
    lemma_stops_concat(seq![q[0]], rest);
    lemma_runs_single(q[0]);
    lemma_live_bound(v.workers);
    let w = v.after_receive(id);
    match q[0] {
        Message::Run(t) => {
            lemma_live_update(v.workers, id, WorkerState::Executing);
            assert(seq![t] + runs(rest) == runs(q));
            assert(w.submitted =~= w.delivered + runs(rest));
            if v.state == PoolState::Closed {
                if live(v.workers) < v.workers.len() {
                    assert(q[0] is Stop);
                }
            }
        },
        Message::Stop => {
            lemma_live_update(v.workers, id, WorkerState::Terminated);
            assert(runs(q) == runs(rest));
            if v.state == PoolState::Running {
                lemma_no_stops(q);
            }
            assert forall|i: int| 0 <= i < rest.len() implies (#[trigger] rest[i]) is Stop by {
                assert(rest[i] == q[i + 1]);
            }
        },
    }
    assert(w.stops_last()) by {
        assert forall|i: int, j: int|
            0 <= i < j < rest.len() && (#[trigger] rest[i]) is Stop implies (
            #[trigger] rest[j]) is Stop by {
            assert(rest[i] == q[i + 1]);
            assert(rest[j] == q[j + 1]);
        }
    }
}

proof fn lemma_submit_wf<T>(v: PoolView<T>, t: T)
    requires
        v.wf(),
    ensures
        v.after_submit(t).wf(),
{
    if v.state == PoolState::Running {
        let m = Message::Run(t);
        lemma_runs_concat(v.queue, seq![m]);
        lemma_stops_concat(v.queue, seq![m]);
        lemma_runs_single(m);
        assert(v.queue + seq![m] =~= v.queue.push(m));
        let w = v.after_submit(t);
        assert(w.submitted =~= w.delivered + runs(w.queue));
        lemma_no_stops(v.queue);
    }
}

proof fn lemma_close_wf<T>(v: PoolView<T>)
    requires
        v.wf(),
    ensures
        v.after_close().wf(),
{
    if v.state == PoolState::Running {
        let n = v.workers.len();
        let ss = stop_signals::<T>(n);
        let q = v.queue + ss;
        lemma_runs_concat(v.queue, ss);
        lemma_stops_concat(v.queue, ss);
        lemma_stop_signals::<T>(n);
        assert(runs(v.queue) + runs(ss) =~= runs(v.queue));
        lemma_no_stops(v.queue);
        assert forall|i: int, j: int|
            0 <= i < j < q.len() && (#[trigger] q[i]) is Stop implies (#[trigger] q[j]) is Stop by {
            if i < v.queue.len() {
                assert(q[i] == v.queue[i]);
            }
            assert(q[j] == ss[j - v.queue.len()]);
        }
    }
}

/// Closing twice has the effect of closing once.
pub proof fn lemma_close_idempotent<T>(v: PoolView<T>)
    ensures
        v.after_close().after_close() == v.after_close(),
{
}

/// No task is lost or duplicated: the tasks accepted so far are exactly
/// those handed to workers, each once, followed by those still queued; once
/// the queue is empty, every accepted task has been handed out.
pub proof fn lemma_exactly_once<T>(v: PoolView<T>)
    requires
        v.wf(),
    ensures
        v.submitted == v.delivered + runs(v.queue),
        v.queue.len() == 0 ==> v.delivered == v.submitted,
{
    if v.queue.len() == 0 {
        assert(v.delivered + runs(v.queue) =~= v.delivered);
    }
}

/// While a task is queued, no worker has terminated, and the task stands
/// ahead of every stop signal: some worker will take it before its own stop.
pub proof fn lemma_queued_task_not_stranded<T>(v: PoolView<T>, i: int)
    requires
        v.wf(),
        0 <= i < v.queue.len(),
        v.queue[i] is Run,
    ensures
        live(v.workers) == v.workers.len(),
        forall|j: int| 0 <= j < i ==> (#[trigger] v.queue[j]) is Run,
{
    lemma_live_bound(v.workers);
    if v.state == PoolState::Closed && live(v.workers) < v.workers.len() {
        assert(v.queue[i] is Stop);
    }
}

/// A submission racing with a close: if the close comes first the task is
/// rejected and nothing changes; if the submission comes first the task is
/// queued ahead of all stop signals, one per worker, and no worker has
/// terminated.
pub proof fn lemma_submit_close_race<T>(v: PoolView<T>, t: T)
    requires
        v.wf(),
    ensures
        v.after_close().after_submit(t) == v.after_close(),
        v.state == PoolState::Running ==> {
            let w = v.after_submit(t).after_close();
            &&& w.wf()
            &&& w.queue == v.queue.push(Message::Run(t)) + stop_signals::<T>(v.workers.len())
            &&& w.submitted == v.submitted.push(t)
            &&& live(w.workers) == w.workers.len()
        },
{
    lemma_submit_wf(v, t);
    lemma_close_wf(v.after_submit(t));
}

/// Once every worker has taken its stop signal, the pool is closed, its
/// queue is empty, every accepted task was handed out exactly once, and a
/// further submission changes nothing.
pub proof fn lemma_stopped_pool_is_drained<T>(v: PoolView<T>, t: T)
    requires
        v.wf(),
        v.all_terminated(),
    ensures
        v.state == PoolState::Closed,
        v.queue.len() == 0,
        v.delivered == v.submitted,
        v.after_submit(t) == v,
{
    lemma_all_terminated_not_live(v.workers);
    if v.queue.len() > 0 {
        assert(v.queue[0] is Stop);
        assert(stops(v.queue) >= 1) by {
            lemma_stops_positive(v.queue);
        }
    }
    lemma_exactly_once(v);
}

/// The pool `v` after submitting each task of `ts` in order.
pub open spec fn submit_all<T>(v: PoolView<T>, ts: Seq<T>) -> PoolView<T>
    decreases ts.len(),
{
    if ts.len() == 0 {
        v
    } else {
        submit_all(v, ts.drop_last()).after_submit(ts.last())
    }
}

/// The pool `v` after workers `0`, `1`, ..., `k - 1` each take a message.
pub open spec fn receive_first<T>(v: PoolView<T>, k: nat) -> PoolView<T>
    decreases k,
{
    if k == 0 {
        v
    } else {
        receive_first(v, (k - 1) as nat).after_receive(k - 1)
    }
}

proof fn lemma_submit_all_fresh<T>(n: nat, ts: Seq<T>)
    ensures
        ({
            let v = submit_all(PoolView::<T>::fresh(n), ts);
            &&& v.state == PoolState::Running
            &&& v.queue == ts.map_values(|t: T| Message::Run(t))
            &&& v.workers == PoolView::<T>::fresh(n).workers
            &&& v.delivered == Seq::<T>::empty()
        }),
    decreases ts.len(),
{
    if ts.len() > 0 {
        lemma_submit_all_fresh(n, ts.drop_last());
        assert(ts.map_values(|t: T| Message::Run(t)) =~= ts.drop_last().map_values(
            |t: T| Message::Run(t),
        ).push(Message::Run(ts.last())));
    }
}

proof fn lemma_receive_first_runs<T>(n: nat, ts: Seq<T>, k: nat)
    requires
        ts.len() == n,
        k <= n,
    ensures
        ({
            let w = receive_first(submit_all(PoolView::<T>::fresh(n), ts), k);
            &&& w.queue == ts.subrange(k as int, n as int).map_values(|t: T| Message::Run(t))
            &&& w.workers.len() == n
            &&& forall|i: int| 0 <= i < k ==> w.workers[i] == WorkerState::Executing
            &&& forall|i: int| k <= i < n ==> w.workers[i] == WorkerState::Waiting
            &&& w.delivered == ts.subrange(0, k as int)
        }),
    decreases k,
{
    let v = submit_all(PoolView::<T>::fresh(n), ts);
    lemma_submit_all_fresh(n, ts);
    if k == 0 {
        assert(ts.subrange(0, n as int) =~= ts);
        assert(ts.subrange(0, 0) =~= Seq::<T>::empty());
    } else {
        lemma_receive_first_runs(n, ts, (k - 1) as nat);
        let u = receive_first(v, (k - 1) as nat);
        assert(u.queue[0] == Message::Run(ts[k - 1]));
        assert(u.queue.drop_first() =~= ts.subrange(k as int, n as int).map_values(
            |t: T| Message::Run(t),
        ));
        assert(u.delivered.push(ts[k - 1]) =~= ts.subrange(0, k as int));
    }
}

/// A pool built with `n` workers runs `n` tasks at once: once `n` tasks are
/// submitted and each worker has taken a message, every worker executes a
/// task of its own, the queue is empty, and no worker is left waiting.
pub proof fn lemma_n_workers_run_together<T>(n: nat, ts: Seq<T>)
    requires
        n >= 1,
        ts.len() == n,
    ensures
        ({
            let w = receive_first(submit_all(PoolView::<T>::fresh(n), ts), n);
            &&& w.workers.len() == n
            &&& forall|i: int| 0 <= i < n ==> w.workers[i] == WorkerState::Executing
            &&& w.queue.len() == 0
            &&& w.delivered == ts
        }),
{
    lemma_receive_first_runs(n, ts, n);
    assert(ts.subrange(0, n as int) =~= ts);
}

proof fn lemma_all_terminated_not_live(ws: Seq<WorkerState>)
    requires
        forall|i: int| 0 <= i < ws.len() ==> ws[i] == WorkerState::Terminated,
    ensures
        live(ws) == 0,
    decreases ws.len(),
{
    if ws.len() > 0 {
        lemma_all_terminated_not_live(ws.drop_last());
    }
}

proof fn lemma_stops_positive<T>(q: Seq<Message<T>>)
    requires
        q.len() > 0,
        q[0] is Stop,
    ensures
        stops(q) >= 1,
    decreases q.len(),
{
    if q.len() > 1 {
        lemma_stops_positive(q.drop_last());
    }
}

} // verus!
