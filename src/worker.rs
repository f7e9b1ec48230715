use vstd::prelude::*;

verus! {

/// Milliseconds a worker waits after a transient acquisition failure.
pub const BACKOFF_MS: u64 = 3000;

/// Milliseconds the tailer sleeps when no complete line is available.
pub const POLL_MS: u64 = 10;

/// Where a worker stands in its connection lifecycle.
#[derive(Clone, Copy, Debug, PartialEq, Eq, Structural)]
pub enum WorkerState {
    /// Holds no connection; the next step is to acquire one.
    Disconnected,
    /// Holds a usable connection; the next step is to take a statement.
    Connected,
    /// Has stopped for good.
    Terminated,
}

/// What the surrounding loop observed after performing the last action.
#[derive(Clone, Copy, Debug, PartialEq, Eq, Structural)]
pub enum WorkerEvent {
    /// The pool handed out a connection.
    Acquired,
    /// The pool could not hand out a connection, for a reason that may pass.
    AcquireTransient,
    /// The pool can never hand out a connection (a configuration error).
    AcquireFatal,
    /// A statement was taken from the queue.
    Received,
    /// The queue is closed and drained.
    QueueEnd,
    /// A statement was run; `ok` is its outcome, `usable` the connection's
    /// liveness afterwards.
    Executed { ok: bool, usable: bool },
}

/// What the surrounding loop must do next.
#[derive(Clone, Copy, Debug, PartialEq, Eq, Structural)]
pub enum WorkerAction {
    /// Ask the pool for a connection.
    Acquire,
    /// Report a transient error, wait `BACKOFF_MS`, then ask the pool again.
    Backoff,
    /// Take the next statement from the queue.
    Dequeue,
    /// Run the statement just taken on the held connection.
    Execute,
    /// Report the outcome of the statement, then take the next one.
    ReportAndDequeue { ok: bool },
    /// Report the outcome, give the broken connection back and acquire anew.
    ReportAndReconnect { ok: bool },
    /// Stop: a configuration error that must not be retried.
    Fatal,
    /// Release any held connection and stop.
    Exit,
}

/// The transition function of a worker: next state and action.
pub open spec fn spec_step(s: WorkerState, e: WorkerEvent) -> (WorkerState, WorkerAction) {
    match s {
        WorkerState::Terminated => (WorkerState::Terminated, WorkerAction::Exit),
        WorkerState::Disconnected => match e {
            WorkerEvent::Acquired => (WorkerState::Connected, WorkerAction::Dequeue),
            WorkerEvent::AcquireTransient => (WorkerState::Disconnected, WorkerAction::Backoff),
            WorkerEvent::AcquireFatal => (WorkerState::Terminated, WorkerAction::Fatal),
            WorkerEvent::QueueEnd => (WorkerState::Terminated, WorkerAction::Exit),
            _ => (WorkerState::Disconnected, WorkerAction::Acquire),
        },
        WorkerState::Connected => match e {
            WorkerEvent::Received => (WorkerState::Connected, WorkerAction::Execute),
            WorkerEvent::QueueEnd => (WorkerState::Terminated, WorkerAction::Exit),
            WorkerEvent::Executed { ok, usable } => if usable {
                (WorkerState::Connected, WorkerAction::ReportAndDequeue { ok })
            } else {
                (WorkerState::Disconnected, WorkerAction::ReportAndReconnect { ok })
            },
            _ => (WorkerState::Connected, WorkerAction::Dequeue),
        },
    }
}

/// The first action of a freshly spawned worker.
pub fn start() -> (r: (WorkerState, WorkerAction))
    ensures
        r == (WorkerState::Disconnected, WorkerAction::Acquire),
{
    (WorkerState::Disconnected, WorkerAction::Acquire)
}

/// One transition of a worker.
pub fn step(s: WorkerState, e: WorkerEvent) -> (r: (WorkerState, WorkerAction))
    ensures
        r == spec_step(s, e),
{
    match s {
        WorkerState::Terminated => (WorkerState::Terminated, WorkerAction::Exit),
        WorkerState::Disconnected => match e {
            WorkerEvent::Acquired => (WorkerState::Connected, WorkerAction::Dequeue),
            WorkerEvent::AcquireTransient => (WorkerState::Disconnected, WorkerAction::Backoff),
            WorkerEvent::AcquireFatal => (WorkerState::Terminated, WorkerAction::Fatal),
            WorkerEvent::QueueEnd => (WorkerState::Terminated, WorkerAction::Exit),
            _ => (WorkerState::Disconnected, WorkerAction::Acquire),
        },
        WorkerState::Connected => match e {
            WorkerEvent::Received => (WorkerState::Connected, WorkerAction::Execute),
            WorkerEvent::QueueEnd => (WorkerState::Terminated, WorkerAction::Exit),
            WorkerEvent::Executed { ok, usable } => if usable {
                (WorkerState::Connected, WorkerAction::ReportAndDequeue { ok })
            } else {
                (WorkerState::Disconnected, WorkerAction::ReportAndReconnect { ok })
            },
            _ => (WorkerState::Connected, WorkerAction::Dequeue),
        },
    }
}

/// The states and actions a worker goes through on a sequence of events.
pub open spec fn spec_run(s: WorkerState, events: Seq<WorkerEvent>) -> Seq<(WorkerState, WorkerAction)>
    decreases events.len(),
{
    if events.len() == 0 {
        Seq::empty()
    } else {
        let r = spec_step(s, events[0]);
        seq![r] + spec_run(r.0, events.drop_first())
    }
}

/// Runs a worker over a recorded sequence of events.
pub fn run(s: WorkerState, events: &Vec<WorkerEvent>) -> (r: Vec<(WorkerState, WorkerAction)>)
    ensures
        r@ == spec_run(s, events@),
{
    let mut out: Vec<(WorkerState, WorkerAction)> = Vec::new();
    let mut cur = s;
    let mut i: usize = 0;
    proof {
        assert(events@.subrange(0, events@.len() as int) =~= events@);
        assert(out@ + spec_run(s, events@) =~= spec_run(s, events@));
    }
    while i < events.len()
        invariant
            i <= events@.len(),
            out@ + spec_run(cur, events@.subrange(i as int, events@.len() as int)) == spec_run(
                s,
                events@,
            ),
        decreases events@.len() - i,
    {
        let r = step(cur, events[i]);
        proof {
            let rest = events@.subrange(i as int, events@.len() as int);
            assert(rest.drop_first() =~= events@.subrange(i + 1, events@.len() as int));
            assert(out@.push(r) + spec_run(r.0, rest.drop_first()) =~= out@ + spec_run(cur, rest));
        }
        out.push(r);
        cur = r.0;
        i = i + 1;
    }
    proof {
        assert(events@.subrange(i as int, events@.len() as int) =~= Seq::<WorkerEvent>::empty());
        assert(out@ + Seq::<(WorkerState, WorkerAction)>::empty() =~= out@);
    }
    out
}

/// `k` transient acquisition failures followed by one success.
pub open spec fn fails_then_succeeds(k: nat) -> Seq<WorkerEvent> {
    Seq::new(k, |i: int| WorkerEvent::AcquireTransient).push(WorkerEvent::Acquired)
}

/// Number of backoff waits among a run's actions.
pub open spec fn backoffs(r: Seq<(WorkerState, WorkerAction)>) -> nat
    decreases r.len(),
{
    if r.len() == 0 {
        0
    } else {
        (if r.last().1 == WorkerAction::Backoff { 1nat } else { 0nat }) + backoffs(r.drop_last())
    }
}

proof fn lemma_run_transient(k: nat)
    ensures
        spec_run(WorkerState::Disconnected, fails_then_succeeds(k)) == Seq::new(
            k,
            |i: int| (WorkerState::Disconnected, WorkerAction::Backoff),
        ).push((WorkerState::Connected, WorkerAction::Dequeue)),
    decreases k,
{
    let ev = fails_then_succeeds(k);
    if k == 0 {
        let rest = ev.drop_first();
        assert(rest =~= Seq::<WorkerEvent>::empty());
        assert(spec_run(WorkerState::Connected, rest) == Seq::<(WorkerState, WorkerAction)>::empty());
        assert(spec_run(WorkerState::Disconnected, ev) =~= seq![(WorkerState::Connected, WorkerAction::Dequeue)]);
        assert(Seq::new(0, |i: int| (WorkerState::Disconnected, WorkerAction::Backoff)).push(
            (WorkerState::Connected, WorkerAction::Dequeue),
        ) =~= seq![(WorkerState::Connected, WorkerAction::Dequeue)]);
    } else {
        lemma_run_transient((k - 1) as nat);
        assert(ev.drop_first() =~= fails_then_succeeds((k - 1) as nat));
        assert(spec_run(WorkerState::Disconnected, ev) =~= Seq::new(
            k,
            |i: int| (WorkerState::Disconnected, WorkerAction::Backoff),
        ).push((WorkerState::Connected, WorkerAction::Dequeue)));
    }
}

proof fn lemma_backoffs_all(k: nat)
    ensures
        backoffs(Seq::new(k, |i: int| (WorkerState::Disconnected, WorkerAction::Backoff))) == k,
    decreases k,
{
    let s = Seq::new(k, |i: int| (WorkerState::Disconnected, WorkerAction::Backoff));
    if k > 0 {
        lemma_backoffs_all((k - 1) as nat);
        assert(s.drop_last() =~= Seq::new(
            (k - 1) as nat,
            |i: int| (WorkerState::Disconnected, WorkerAction::Backoff),
        ));
    }
}

/// A worker whose pool fails `k` times and then succeeds waits out `k`
/// backoffs (reporting a transient error with each) before it is connected
/// and asks for its first statement: at least `k * BACKOFF_MS` milliseconds.
pub proof fn lemma_retry_backoff(k: nat)
    ensures
        ({
            let r = spec_run(WorkerState::Disconnected, fails_then_succeeds(k));
            &&& r.len() == k + 1
            &&& backoffs(r) == k
            &&& forall|i: int| 0 <= i < k ==> r[i] == (WorkerState::Disconnected, WorkerAction::Backoff)
            &&& r[k as int] == (WorkerState::Connected, WorkerAction::Dequeue)
        }),
{
    lemma_run_transient(k);
    let r = spec_run(WorkerState::Disconnected, fails_then_succeeds(k));
    let b = Seq::new(k, |i: int| (WorkerState::Disconnected, WorkerAction::Backoff));
    lemma_backoffs_all(k);
    assert(r.drop_last() =~= b);
}

/// A configuration error while acquiring stops the worker at once: it never
/// takes a statement or runs one, whatever is observed afterwards.
pub proof fn lemma_fatal_short_circuit(events: Seq<WorkerEvent>)
    requires
        events.len() > 0,
        events[0] == WorkerEvent::AcquireFatal,
    ensures
        ({
            let r = spec_run(WorkerState::Disconnected, events);
            &&& r[0] == (WorkerState::Terminated, WorkerAction::Fatal)
            &&& forall|i: int| 1 <= i < r.len() ==> r[i] == (WorkerState::Terminated, WorkerAction::Exit)
        }),
{
    lemma_terminated_stays(events.drop_first());
}

proof fn lemma_terminated_stays(events: Seq<WorkerEvent>)
    ensures
        spec_run(WorkerState::Terminated, events).len() == events.len(),
        forall|i: int|
            0 <= i < events.len() ==> spec_run(WorkerState::Terminated, events)[i] == (
                WorkerState::Terminated,
                WorkerAction::Exit,
            ),
    decreases events.len(),
{
    if events.len() > 0 {
        lemma_terminated_stays(events.drop_first());
    }
}

} // verus!
