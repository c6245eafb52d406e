//! Event histories from Jepsen logs.  A log lists, one line each, the
//! invocations and completions of every process's operations; a
//! completion belongs to the operation that its process invoked last, and
//! an operation whose completion never came ends with a timeout.
//!
//! The lines arrive here already read (see `log_format`); what is decided
//! here is which events they make.
use crate::etcd::{EtcdInput, EtcdModel, EtcdOutput};
use crate::kv::{KvInput, KvOutput};
use crate::model::{Event, EventModel, Model};
use vstd::prelude::*;

verus! {

/// The kind of an operation that was invoked and has not completed.
#[derive(Clone, Copy, Debug, PartialEq, Eq, Structural)]
pub enum PendingOp {
    Read,
    Write,
    Cas,
}

/// One recognized line of an etcd log.
#[allow(inconsistent_fields)]
#[derive(Clone, Copy, Debug, PartialEq, Eq, Structural)]
pub enum EtcdLogLine {
    InvokeRead { process: u32 },
    InvokeWrite { process: u32, value: i32 },
    InvokeCas { process: u32, from: i32, to: i32 },
    /// A completed read: `None` when it found no value.
    ReturnRead { process: u32, value: Option<i32> },
    ReturnWrite { process: u32 },
    /// A completed compare-and-set: whether it succeeded.
    ReturnCas { process: u32, ok: bool },
    /// A read that timed out.
    TimeoutRead { process: u32 },
}

/// An operation still waiting for its completion: its process, its id and
/// its kind.
pub type Pending = (u32, usize, PendingOp);

/// The position of the operation that `process` is waiting for.
pub open spec fn pending_index(pending: Seq<Pending>, process: u32) -> Option<int> {
    if exists|i: int| 0 <= i < pending.len() && pending[i].0 == process {
        Some(choose|i: int| 0 <= i < pending.len() && pending[i].0 == process)
    } else {
        None
    }
}

/// Record that `process` now waits for operation `id` of kind `kind`: it
/// replaces what the process waited for before.
pub open spec fn pending_insert(pending: Seq<Pending>, process: u32, id: usize, kind: PendingOp) -> Seq<Pending> {
    match pending_index(pending, process) {
        Some(i) => pending.update(i, (process, id, kind)),
        None => pending.push((process, id, kind)),
    }
}

/// No two pending operations belong to one process.
pub open spec fn one_per_process(pending: Seq<Pending>) -> bool {
    forall|i: int, j: int| 0 <= i < j < pending.len() ==> #[trigger] pending[i].0 != #[trigger] pending[j].0
}

pub open spec fn call_event<M: EventModel>(process: u32, id: usize, value: M::Input) -> Event<M> {
    Event::Call { client_id: Some(process), value, id, metadata: None }
}

pub open spec fn return_event<M: EventModel>(process: u32, id: usize, value: M::Output) -> Event<M> {
    Event::Return { client_id: Some(process), value, id, metadata: None }
}

/// The return of an etcd operation of kind `kind` that timed out: its
/// outcome is unknown.
pub open spec fn etcd_timeout(kind: PendingOp, process: u32, id: usize) -> Event<EtcdModel> {
    match kind {
        PendingOp::Read => return_event(process, id, EtcdOutput::Read { exists: false, value: 0, unknown: true }),
        PendingOp::Write => return_event(process, id, EtcdOutput::Write),
        PendingOp::Cas => return_event(process, id, EtcdOutput::Cas { ok: false, unknown: true }),
    }
}

/// What the events, the pending operations and the next id become after
/// one more line; `None` when a completion's process is waiting for no
/// invocation.  A completion is paired with what its process waits for,
/// whatever the kinds, and keeps its own output.
pub open spec fn etcd_log_step(
    st: (Seq<Event<EtcdModel>>, Seq<Pending>, nat),
    line: EtcdLogLine,
) -> Option<(Seq<Event<EtcdModel>>, Seq<Pending>, nat)> {
    let (events, pending, next) = st;
    let id = next as usize;
    match line {
        EtcdLogLine::InvokeRead { process } => Some(
            (
                events.push(call_event(process, id, EtcdInput::Read)),
                pending_insert(pending, process, id, PendingOp::Read),
                next + 1,
            ),
        ),
        EtcdLogLine::InvokeWrite { process, value } => Some(
            (
                events.push(call_event(process, id, EtcdInput::Write { value })),
                pending_insert(pending, process, id, PendingOp::Write),
                next + 1,
            ),
        ),
        EtcdLogLine::InvokeCas { process, from, to } => Some(
            (
                events.push(call_event(process, id, EtcdInput::Cas { from, to })),
                pending_insert(pending, process, id, PendingOp::Cas),
                next + 1,
            ),
        ),
        EtcdLogLine::ReturnRead { process, value } => match pending_index(pending, process) {
            Some(i) => Some(
                (
                    events.push(
                        return_event(
                            process,
                            pending[i].1,
                            EtcdOutput::Read {
                                exists: value is Some,
                                value: match value {
                                    Some(v) => v,
                                    None => 0,
                                },
                                unknown: false,
                            },
                        ),
                    ),
                    pending.remove(i),
                    next,
                ),
            ),
            None => None,
        },
        EtcdLogLine::ReturnWrite { process } => match pending_index(pending, process) {
            Some(i) => Some(
                (
                    events.push(return_event(process, pending[i].1, EtcdOutput::Write)),
                    pending.remove(i),
                    next,
                ),
            ),
            None => None,
        },
        EtcdLogLine::ReturnCas { process, ok } => match pending_index(pending, process) {
            Some(i) => Some(
                (
                    events.push(return_event(process, pending[i].1, EtcdOutput::Cas { ok, unknown: false })),
                    pending.remove(i),
                    next,
                ),
            ),
            None => None,
        },
        EtcdLogLine::TimeoutRead { process } => match pending_index(pending, process) {
            Some(i) => Some(
                (
                    events.push(etcd_timeout(pending[i].2, process, pending[i].1)),
                    pending.remove(i),
                    next,
                ),
            ),
            None => None,
        },
    }
}

/// The state after the lines, one after the other.
pub open spec fn etcd_log_run(lines: Seq<EtcdLogLine>) -> Option<(Seq<Event<EtcdModel>>, Seq<Pending>, nat)>
    decreases lines.len(),
{
    if lines.len() == 0 {
        Some((Seq::empty(), Seq::empty(), 0))
    } else {
        match etcd_log_run(lines.drop_last()) {
            Some(st) => etcd_log_step(st, lines.last()),
            None => None,
        }
    }
}

/// The events of an etcd log: one per line, then a timeout for every
/// operation still waiting, in the order in which they were invoked.
pub open spec fn etcd_log_events(lines: Seq<EtcdLogLine>) -> Option<Seq<Event<EtcdModel>>> {
    match etcd_log_run(lines) {
        Some((events, pending, _)) => Some(
            events + pending.map_values(|p: Pending| etcd_timeout(p.2, p.0, p.1)),
        ),
        None => None,
    }
}

/// The process whose completion a line reports, if it reports one.
pub open spec fn completing_process(line: EtcdLogLine) -> Option<u32> {
    match line {
        EtcdLogLine::ReturnRead { process, .. } => Some(process),
        EtcdLogLine::ReturnWrite { process } => Some(process),
        EtcdLogLine::ReturnCas { process, .. } => Some(process),
        EtcdLogLine::TimeoutRead { process } => Some(process),
        _ => None,
    }
}

/// A completion by a process that waits for an operation adds, right
/// after the events of the lines before it, the return of that operation,
/// for that process, with what the line reports: a read's value (or that
/// it found none), a write's acknowledgement, a compare-and-set's success,
/// each with a known outcome; a read that timed out returns an unknown
/// outcome.
pub proof fn lemma_etcd_completion(pre: Seq<EtcdLogLine>, line: EtcdLogLine)
    requires
        completing_process(line) matches Some(process) && etcd_log_run(pre) matches Some(st) && pending_index(
            st.1,
            process,
        ) is Some,
    ensures
        ({
            let process = completing_process(line)->0;
            let (before, pending, _) = etcd_log_run(pre)->0;
            let id = pending[pending_index(pending, process)->0].1;
            let kind = pending[pending_index(pending, process)->0].2;
            let ret = |value: EtcdOutput|
                Event::<EtcdModel>::Return { client_id: Some(process), value, id, metadata: None };
            &&& etcd_log_events(pre.push(line)) matches Some(all)
            &&& all.len() > before.len()
            &&& all.take(before.len() as int) == before
            &&& all[before.len() as int] == match line {
                EtcdLogLine::ReturnRead { value, .. } => ret(
                    EtcdOutput::Read {
                        exists: value is Some,
                        value: match value {
                            Some(v) => v,
                            None => 0,
                        },
                        unknown: false,
                    },
                ),
                EtcdLogLine::ReturnWrite { .. } => ret(EtcdOutput::Write),
                EtcdLogLine::ReturnCas { ok, .. } => ret(EtcdOutput::Cas { ok, unknown: false }),
                _ => match kind {
                    PendingOp::Read => ret(EtcdOutput::Read { exists: false, value: 0, unknown: true }),
                    PendingOp::Write => ret(EtcdOutput::Write),
                    PendingOp::Cas => ret(EtcdOutput::Cas { ok: false, unknown: true }),
                },
            }
        }),
{
    let lines = pre.push(line);
    assert(lines.drop_last() =~= pre);
    assert(lines.last() == line);
    let (before, pending, next) = etcd_log_run(pre)->0;
    let all = etcd_log_events(lines)->0;
    assert(all.take(before.len() as int) =~= before);
}

/// An invocation adds the call of a new operation, for its process, with
/// the next id and the line's own input.
pub proof fn lemma_etcd_invocation(pre: Seq<EtcdLogLine>, line: EtcdLogLine)
    requires
        completing_process(line) is None,
        etcd_log_run(pre) is Some,
    ensures
        ({
            let (before, pending, next) = etcd_log_run(pre)->0;
            let (process, input) = match line {
                EtcdLogLine::InvokeRead { process } => (process, EtcdInput::Read),
                EtcdLogLine::InvokeWrite { process, value } => (process, EtcdInput::Write { value }),
                EtcdLogLine::InvokeCas { process, from, to } => (process, EtcdInput::Cas { from, to }),
                _ => (0u32, EtcdInput::Read),
            };
            &&& etcd_log_run(pre.push(line)) matches Some((after, _, next2))
            &&& next2 == next + 1
            &&& after == before.push(
                Event::<EtcdModel>::Call { client_id: Some(process), value: input, id: next as usize, metadata: None },
            )
        }),
{
    let lines = pre.push(line);
    assert(lines.drop_last() =~= pre);
    assert(lines.last() == line);
}

/// The return made for an etcd operation that timed out or never
/// completed leaves its outcome open: with the input it completes, it
/// makes an operation that the register accepts whatever it holds.
pub proof fn lemma_etcd_timeout_accepted(kind: PendingOp, process: u32, id: usize, input: EtcdInput, state: i32)
    requires
        etcd_timeout(kind, process, id) matches Event::Return { value, .. } && EtcdModel::combines(input, value),
    ensures
        etcd_timeout(kind, process, id) matches Event::Return { value, client_id, id: rid, .. } && client_id
            == Some(process) && rid == id && EtcdModel::step_spec(state, EtcdModel::combine_spec(input, value)).0,
{
}

/// The position of the operation that `process` is waiting for.
fn find_pending(pending: &Vec<Pending>, process: u32) -> (r: Option<usize>)
    requires
        one_per_process(pending@),
    ensures
        r matches Some(i) ==> pending_index(pending@, process) == Some(i as int),
        r is None ==> pending_index(pending@, process) is None,
{
    let mut i: usize = 0;
    while i < pending.len()
        invariant
            i <= pending@.len(),
            one_per_process(pending@),
            forall|j: int| 0 <= j < i ==> pending@[j].0 != process,
        decreases pending@.len() - i,
    {
        if pending[i].0 == process {
            proof {
                let c = choose|j: int| 0 <= j < pending@.len() && pending@[j].0 == process;
                if c != i {
                    if c < i {
                        assert(pending@[c].0 != process);
                    } else {
                        assert(pending@[i as int].0 != pending@[c].0);
                    }
                }
            }
            return Some(i);
        }
        i = i + 1;
    }
    None
}

/// Record that `process` now waits for operation `id` of kind `kind`.
fn insert_pending(pending: &mut Vec<Pending>, process: u32, id: usize, kind: PendingOp)
    requires
        one_per_process(old(pending)@),
    ensures
        final(pending)@ == pending_insert(old(pending)@, process, id, kind),
        one_per_process(final(pending)@),
{
    match find_pending(pending, process) {
        Some(i) => {
            pending.set(i, (process, id, kind));
        },
        None => {
            pending.push((process, id, kind));
        },
    }
}

/// The pending operations without the one at `i`.
proof fn lemma_remove_one_per_process(pending: Seq<Pending>, i: int)
    requires
        one_per_process(pending),
        0 <= i < pending.len(),
    ensures
        one_per_process(pending.remove(i)),
{
    let r = pending.remove(i);
    assert forall|a: int, b: int| 0 <= a < b < r.len() implies #[trigger] r[a].0 != #[trigger] r[b].0 by {
        let a2 = if a < i { a } else { a + 1 };
        let b2 = if b < i { b } else { b + 1 };
        assert(r[a] == pending[a2] && r[b] == pending[b2]);
    }
}

/// The events that an etcd log describes; `None` when a completion's
/// process is waiting for no invocation.
pub fn etcd_events(lines: &Vec<EtcdLogLine>) -> (r: Option<Vec<Event<EtcdModel>>>)
    requires
        lines@.len() < usize::MAX,
    ensures
        r is Some <==> etcd_log_events(lines@) is Some,
        r matches Some(events) ==> etcd_log_events(lines@) == Some(events@),
{
    let mut events: Vec<Event<EtcdModel>> = Vec::new();
    let mut pending: Vec<Pending> = Vec::new();
    let mut next: usize = 0;
    let mut k: usize = 0;
    while k < lines.len()
        invariant
            k <= lines@.len(),
            lines@.len() < usize::MAX,
            next <= k,
            one_per_process(pending@),
            etcd_log_run(lines@.take(k as int)) == Some((events@, pending@, next as nat)),
        decreases lines@.len() - k,
    {
        proof {
            assert(lines@.take(k + 1).drop_last() =~= lines@.take(k as int));
            assert(lines@.take(k + 1).last() == lines@[k as int]);
        }
        let id = next;
        match lines[k] {
            EtcdLogLine::InvokeRead { process } => {
                events.push(Event::Call { client_id: Some(process), value: EtcdInput::Read, id, metadata: None });
                insert_pending(&mut pending, process, id, PendingOp::Read);
                next = next + 1;
            },
            EtcdLogLine::InvokeWrite { process, value } => {
                events.push(Event::Call { client_id: Some(process), value: EtcdInput::Write { value }, id, metadata: None });
                insert_pending(&mut pending, process, id, PendingOp::Write);
                next = next + 1;
            },
            EtcdLogLine::InvokeCas { process, from, to } => {
                events.push(Event::Call { client_id: Some(process), value: EtcdInput::Cas { from, to }, id, metadata: None });
                insert_pending(&mut pending, process, id, PendingOp::Cas);
                next = next + 1;
            },
            EtcdLogLine::ReturnRead { process, value } => {
                match find_pending(&pending, process) {
                    Some(i) => {
                        let (_, match_id, _) = pending[i];
                        let (exists, v) = match value {
                            Some(v) => (true, v),
                            None => (false, 0),
                        };
                        events.push(Event::Return {
                            client_id: Some(process),
                            value: EtcdOutput::Read { exists, value: v, unknown: false },
                            id: match_id,
                            metadata: None,
                        });
                        proof {
                            lemma_remove_one_per_process(pending@, i as int);
                        }
                        pending.remove(i);
                    },
                    None => {
                        proof {
                            lemma_run_none_stays(lines@, k + 1);
                        }
                        return None;
                    },
                }
            },
            EtcdLogLine::ReturnWrite { process } => {
                match find_pending(&pending, process) {
                    Some(i) => {
                        let (_, match_id, _) = pending[i];
                        events.push(Event::Return {
                            client_id: Some(process),
                            value: EtcdOutput::Write,
                            id: match_id,
                            metadata: None,
                        });
                        proof {
                            lemma_remove_one_per_process(pending@, i as int);
                        }
                        pending.remove(i);
                    },
                    None => {
                        proof {
                            lemma_run_none_stays(lines@, k + 1);
                        }
                        return None;
                    },
                }
            },
            EtcdLogLine::ReturnCas { process, ok } => {
                match find_pending(&pending, process) {
                    Some(i) => {
                        let (_, match_id, _) = pending[i];
                        events.push(Event::Return {
                            client_id: Some(process),
                            value: EtcdOutput::Cas { ok, unknown: false },
                            id: match_id,
                            metadata: None,
                        });
                        proof {
                            lemma_remove_one_per_process(pending@, i as int);
                        }
                        pending.remove(i);
                    },
                    None => {
                        proof {
                            lemma_run_none_stays(lines@, k + 1);
                        }
                        return None;
                    },
                }
            },
            EtcdLogLine::TimeoutRead { process } => {
                match find_pending(&pending, process) {
                    Some(i) => {
                        let (_, match_id, kind) = pending[i];
                        events.push(etcd_timeout_event(kind, process, match_id));
                        proof {
                            lemma_remove_one_per_process(pending@, i as int);
                        }
                        pending.remove(i);
                    },
                    None => {
                        proof {
                            lemma_run_none_stays(lines@, k + 1);
                        }
                        return None;
                    },
                }
            },
        }
        k = k + 1;
    }
    proof {
        assert(lines@.take(lines@.len() as int) =~= lines@);
    }
    let ghost base = events@;
    let mut j: usize = 0;
    while j < pending.len()
        invariant
            j <= pending@.len(),
            events@ == base + pending@.take(j as int).map_values(|p: Pending| etcd_timeout(p.2, p.0, p.1)),
        decreases pending@.len() - j,
    {
        let (process, match_id, kind) = pending[j];
        events.push(etcd_timeout_event(kind, process, match_id));
        proof {
            assert(pending@.take(j + 1).map_values(|p: Pending| etcd_timeout(p.2, p.0, p.1)) =~= pending@.take(
                j as int,
            ).map_values(|p: Pending| etcd_timeout(p.2, p.0, p.1)).push(etcd_timeout(kind, process, match_id)));
        }
        j = j + 1;
    }
    proof {
        assert(pending@.take(pending@.len() as int) =~= pending@);
    }
    Some(events)
}

/// The return of an etcd operation that timed out.
fn etcd_timeout_event(kind: PendingOp, process: u32, id: usize) -> (e: Event<EtcdModel>)
    ensures
        e == etcd_timeout(kind, process, id),
{
    match kind {
        PendingOp::Read => Event::Return {
            client_id: Some(process),
            value: EtcdOutput::Read { exists: false, value: 0, unknown: true },
            id,
            metadata: None,
        },
        PendingOp::Write => Event::Return { client_id: Some(process), value: EtcdOutput::Write, id, metadata: None },
        PendingOp::Cas => Event::Return {
            client_id: Some(process),
            value: EtcdOutput::Cas { ok: false, unknown: true },
            id,
            metadata: None,
        },
    }
}

/// Once the run has failed, it stays failed.
proof fn lemma_run_none_stays(lines: Seq<EtcdLogLine>, k: int)
    requires
        0 <= k <= lines.len(),
        etcd_log_run(lines.take(k)) is None,
    ensures
        etcd_log_run(lines) is None,
    decreases lines.len() - k,
{
    if k < lines.len() {
        assert(lines.take(k + 1).drop_last() =~= lines.take(k));
        lemma_run_none_stays(lines, k + 1);
    } else {
        assert(lines.take(k) =~= lines);
    }
}

// ---------------------------------------------------------------------------
// Key-value logs
// ---------------------------------------------------------------------------

/// The kind of a key-value operation that was invoked and has not
/// completed.
#[derive(Clone, Copy, Debug, PartialEq, Eq, Structural)]
pub enum KvPendingOp {
    Read,
    Write,
    Append,
}

/// One recognized line of a key-value log.
#[allow(inconsistent_fields)]
#[derive(Clone, Debug, PartialEq, Eq)]
pub enum KvLogLine {
    InvokeRead { process: u32, key: String },
    InvokeWrite { process: u32, key: String, value: String },
    InvokeAppend { process: u32, key: String, value: String },
    ReturnRead { process: u32, value: String },
    ReturnWrite { process: u32 },
    ReturnAppend { process: u32 },
}

/// An operation of a key-value log still waiting for its completion.
pub type KvPending = (u32, usize, KvPendingOp);

/// The position of the operation that `process` is waiting for.
pub open spec fn kv_pending_index(pending: Seq<KvPending>, process: u32) -> Option<int> {
    if exists|i: int| 0 <= i < pending.len() && pending[i].0 == process {
        Some(choose|i: int| 0 <= i < pending.len() && pending[i].0 == process)
    } else {
        None
    }
}

/// Record that `process` now waits for operation `id` of kind `kind`.
pub open spec fn kv_pending_insert(pending: Seq<KvPending>, process: u32, id: usize, kind: KvPendingOp) -> Seq<
    KvPending,
> {
    match kv_pending_index(pending, process) {
        Some(i) => pending.update(i, (process, id, kind)),
        None => pending.push((process, id, kind)),
    }
}

/// No two pending operations belong to one process.
pub open spec fn kv_one_per_process(pending: Seq<KvPending>) -> bool {
    forall|i: int, j: int| 0 <= i < j < pending.len() ==> #[trigger] pending[i].0 != #[trigger] pending[j].0
}

/// The state after one more line of a key-value log: an invocation adds a
/// call and waits; a completion of a process that waits adds a return for
/// what it waits for, whatever the kinds, with the completion's own
/// output; a completion with nothing waiting is skipped.
pub open spec fn kv_log_step<M: EventModel<Input = KvInput, Output = KvOutput>>(
    st: (Seq<Event<M>>, Seq<KvPending>, nat),
    line: KvLogLine,
) -> (Seq<Event<M>>, Seq<KvPending>, nat) {
    let (events, pending, next) = st;
    let id = next as usize;
    match line {
        KvLogLine::InvokeRead { process, key } => (
            events.push(call_event(process, id, KvInput::Read { key })),
            kv_pending_insert(pending, process, id, KvPendingOp::Read),
            next + 1,
        ),
        KvLogLine::InvokeWrite { process, key, value } => (
            events.push(call_event(process, id, KvInput::Write { key, value })),
            kv_pending_insert(pending, process, id, KvPendingOp::Write),
            next + 1,
        ),
        KvLogLine::InvokeAppend { process, key, value } => (
            events.push(call_event(process, id, KvInput::Append { key, value })),
            kv_pending_insert(pending, process, id, KvPendingOp::Append),
            next + 1,
        ),
        KvLogLine::ReturnRead { process, value } => match kv_pending_index(pending, process) {
            Some(i) => (
                events.push(return_event(process, pending[i].1, KvOutput::Read { value })),
                pending.remove(i),
                next,
            ),
            None => (events, pending, next),
        },
        KvLogLine::ReturnWrite { process } => match kv_pending_index(pending, process) {
            Some(i) => (events.push(return_event(process, pending[i].1, KvOutput::Write)), pending.remove(i), next),
            None => (events, pending, next),
        },
        KvLogLine::ReturnAppend { process } => match kv_pending_index(pending, process) {
            Some(i) => (events.push(return_event(process, pending[i].1, KvOutput::Append)), pending.remove(i), next),
            None => (events, pending, next),
        },
    }
}

/// The state after the lines of a key-value log, one after the other.
pub open spec fn kv_log_run<M: EventModel<Input = KvInput, Output = KvOutput>>(lines: Seq<KvLogLine>) -> (
    Seq<Event<M>>,
    Seq<KvPending>,
    nat,
)
    decreases lines.len(),
{
    if lines.len() == 0 {
        (Seq::empty(), Seq::empty(), 0)
    } else {
        kv_log_step(kv_log_run::<M>(lines.drop_last()), lines.last())
    }
}

/// `e` completes the pending operation `p` that never completed: a read
/// that found the empty string, or the acknowledgement of a write or an
/// append.
pub open spec fn kv_completes<M: EventModel<Input = KvInput, Output = KvOutput>>(e: Event<M>, p: KvPending) -> bool {
    &&& e matches Event::Return { client_id, id, metadata, value } && client_id == Some(p.0) && id == p.1
        && metadata is None && match p.2 {
        KvPendingOp::Read => value matches KvOutput::Read { value: v } && v@.len() == 0,
        KvPendingOp::Write => value is Write,
        KvPendingOp::Append => value is Append,
    }
}

/// The process whose completion a key-value log line reports, if it
/// reports one.
pub open spec fn kv_completing_process(line: KvLogLine) -> Option<u32> {
    match line {
        KvLogLine::ReturnRead { process, .. } => Some(process),
        KvLogLine::ReturnWrite { process } => Some(process),
        KvLogLine::ReturnAppend { process } => Some(process),
        _ => None,
    }
}

/// A completion by a process that waits for an operation adds, right
/// after the events of the lines before it, the return of that operation,
/// for that process, with the output of the line's own kind: a read with
/// the value it saw, or the acknowledgement of a write or of an append.
pub proof fn lemma_kv_completion<M: EventModel<Input = KvInput, Output = KvOutput>>(pre: Seq<KvLogLine>, line: KvLogLine)
    requires
        kv_completing_process(line) matches Some(process) && kv_pending_index(kv_log_run::<M>(pre).1, process) is Some,
    ensures
        ({
            let process = kv_completing_process(line)->0;
            let (before, pending, _) = kv_log_run::<M>(pre);
            let id = pending[kv_pending_index(pending, process)->0].1;
            let after = kv_log_run::<M>(pre.push(line)).0;
            &&& after.len() == before.len() + 1
            &&& after.take(before.len() as int) == before
            &&& after[before.len() as int] == Event::<M>::Return {
                client_id: Some(process),
                value: match line {
                    KvLogLine::ReturnRead { value, .. } => KvOutput::Read { value },
                    KvLogLine::ReturnWrite { .. } => KvOutput::Write,
                    _ => KvOutput::Append,
                },
                id,
                metadata: None,
            }
        }),
{
    let lines = pre.push(line);
    assert(lines.drop_last() =~= pre);
    assert(lines.last() == line);
    let before = kv_log_run::<M>(pre).0;
    let after = kv_log_run::<M>(lines).0;
    assert(after.take(before.len() as int) =~= before);
}

/// An invocation adds the call of a new operation, for its process, with
/// the next id and the line's own input.
pub proof fn lemma_kv_invocation<M: EventModel<Input = KvInput, Output = KvOutput>>(pre: Seq<KvLogLine>, line: KvLogLine)
    requires
        kv_completing_process(line) is None,
    ensures
        ({
            let (before, pending, next) = kv_log_run::<M>(pre);
            let (after, pending2, next2) = kv_log_run::<M>(pre.push(line));
            let (process, input) = match line {
                KvLogLine::InvokeRead { process, key } => (process, KvInput::Read { key }),
                KvLogLine::InvokeWrite { process, key, value } => (process, KvInput::Write { key, value }),
                KvLogLine::InvokeAppend { process, key, value } => (process, KvInput::Append { key, value }),
                _ => (0u32, KvInput::Read { key: arbitrary() }),
            };
            &&& next2 == next + 1
            &&& after == before.push(Event::<M>::Call { client_id: Some(process), value: input, id: next as usize, metadata: None })
        }),
{
    let lines = pre.push(line);
    assert(lines.drop_last() =~= pre);
    assert(lines.last() == line);
}

/// The position of the operation that `process` is waiting for.
fn kv_find_pending(pending: &Vec<KvPending>, process: u32) -> (r: Option<usize>)
    requires
        kv_one_per_process(pending@),
    ensures
        r matches Some(i) ==> kv_pending_index(pending@, process) == Some(i as int),
        r is None ==> kv_pending_index(pending@, process) is None,
{
    let mut i: usize = 0;
    while i < pending.len()
        invariant
            i <= pending@.len(),
            kv_one_per_process(pending@),
            forall|j: int| 0 <= j < i ==> pending@[j].0 != process,
        decreases pending@.len() - i,
    {
        if pending[i].0 == process {
            proof {
                let c = choose|j: int| 0 <= j < pending@.len() && pending@[j].0 == process;
                if c != i {
                    if c < i {
                        assert(pending@[c].0 != process);
                    } else {
                        assert(pending@[i as int].0 != pending@[c].0);
                    }
                }
            }
            return Some(i);
        }
        i = i + 1;
    }
    None
}

/// Record that `process` now waits for operation `id` of kind `kind`.
fn kv_insert_pending(pending: &mut Vec<KvPending>, process: u32, id: usize, kind: KvPendingOp)
    requires
        kv_one_per_process(old(pending)@),
    ensures
        final(pending)@ == kv_pending_insert(old(pending)@, process, id, kind),
        kv_one_per_process(final(pending)@),
{
    match kv_find_pending(pending, process) {
        Some(i) => {
            pending.set(i, (process, id, kind));
        },
        None => {
            pending.push((process, id, kind));
        },
    }
}

/// The pending operations without the one at `i`.
proof fn lemma_kv_remove_one_per_process(pending: Seq<KvPending>, i: int)
    requires
        kv_one_per_process(pending),
        0 <= i < pending.len(),
    ensures
        kv_one_per_process(pending.remove(i)),
{
    let r = pending.remove(i);
    assert forall|a: int, b: int| 0 <= a < b < r.len() implies #[trigger] r[a].0 != #[trigger] r[b].0 by {
        let a2 = if a < i { a } else { a + 1 };
        let b2 = if b < i { b } else { b + 1 };
        assert(r[a] == pending[a2] && r[b] == pending[b2]);
    }
}

/// The events that a key-value log describes: one per invocation and per
/// completion of a process that waits, then a completion for every
/// operation still waiting, in the order in which they were invoked.
pub fn kv_events<M: EventModel<Input = KvInput, Output = KvOutput>>(lines: Vec<KvLogLine>) -> (events: Vec<
    Event<M>,
>)
    requires
        lines@.len() < usize::MAX,
    ensures
        ({
            let (run_events, pending, _) = kv_log_run::<M>(lines@);
            &&& events@.len() == run_events.len() + pending.len()
            &&& events@.take(run_events.len() as int) == run_events
            &&& forall|j: int|
                0 <= j < pending.len() ==> kv_completes(#[trigger] events@[run_events.len() + j], pending[j])
        }),
{
    let ghost all = lines@;
    let n = lines.len();
    let mut rest = lines;
    let mut reversed: Vec<KvLogLine> = Vec::new();
    while rest.len() > 0
        invariant
            rest@.len() + reversed@.len() == n,
            n == all.len(),
            rest@ == all.take(rest@.len() as int),
            forall|j: int| 0 <= j < reversed@.len() ==> #[trigger] reversed@[j] == all[n - 1 - j],
        decreases rest@.len(),
    {
        let line = rest.pop().unwrap();
        reversed.push(line);
        proof {
            assert(rest@ =~= all.take(rest@.len() as int));
        }
    }
    let mut events: Vec<Event<M>> = Vec::new();
    let mut pending: Vec<KvPending> = Vec::new();
    let mut next: usize = 0;
    let mut k: usize = 0;
    while reversed.len() > 0
        invariant
            k + reversed@.len() == n,
            n == all.len(),
            all == lines@,
            n < usize::MAX,
            next <= k,
            forall|j: int| 0 <= j < reversed@.len() ==> #[trigger] reversed@[j] == all[n - 1 - j],
            kv_one_per_process(pending@),
            kv_log_run::<M>(all.take(k as int)) == (events@, pending@, next as nat),
        decreases reversed@.len(),
    {
        let line = reversed.pop().unwrap();
        proof {
            assert(line == all[k as int]);
            assert(all.take(k + 1).drop_last() =~= all.take(k as int));
            assert(all.take(k + 1).last() == all[k as int]);
        }
        let id = next;
        match line {
            KvLogLine::InvokeRead { process, key } => {
                events.push(Event::Call { client_id: Some(process), value: KvInput::Read { key }, id, metadata: None });
                kv_insert_pending(&mut pending, process, id, KvPendingOp::Read);
                next = next + 1;
            },
            KvLogLine::InvokeWrite { process, key, value } => {
                events.push(Event::Call { client_id: Some(process), value: KvInput::Write { key, value }, id, metadata: None });
                kv_insert_pending(&mut pending, process, id, KvPendingOp::Write);
                next = next + 1;
            },
            KvLogLine::InvokeAppend { process, key, value } => {
                events.push(Event::Call { client_id: Some(process), value: KvInput::Append { key, value }, id, metadata: None });
                kv_insert_pending(&mut pending, process, id, KvPendingOp::Append);
                next = next + 1;
            },
            KvLogLine::ReturnRead { process, value } => {
                match kv_find_pending(&pending, process) {
                    Some(i) => {
                        let (_, match_id, _) = pending[i];
                        events.push(Event::Return { client_id: Some(process), value: KvOutput::Read { value }, id: match_id, metadata: None });
                        proof {
                            lemma_kv_remove_one_per_process(pending@, i as int);
                        }
                        pending.remove(i);
                    },
                    None => {},
                }
            },
            KvLogLine::ReturnWrite { process } => {
                match kv_find_pending(&pending, process) {
                    Some(i) => {
                        let (_, match_id, _) = pending[i];
                        events.push(Event::Return { client_id: Some(process), value: KvOutput::Write, id: match_id, metadata: None });
                        proof {
                            lemma_kv_remove_one_per_process(pending@, i as int);
                        }
                        pending.remove(i);
                    },
                    None => {},
                }
            },
            KvLogLine::ReturnAppend { process } => {
                match kv_find_pending(&pending, process) {
                    Some(i) => {
                        let (_, match_id, _) = pending[i];
                        events.push(Event::Return { client_id: Some(process), value: KvOutput::Append, id: match_id, metadata: None });
                        proof {
                            lemma_kv_remove_one_per_process(pending@, i as int);
                        }
                        pending.remove(i);
                    },
                    None => {},
                }
            },
        }
        k = k + 1;
    }
    proof {
        assert(all.take(n as int) =~= all);
    }
    let ghost base = events@;
    let mut j: usize = 0;
    while j < pending.len()
        invariant
            j <= pending@.len(),
            events@.len() == base.len() + j,
            events@.take(base.len() as int) == base,
            forall|x: int| 0 <= x < j ==> kv_completes(#[trigger] events@[base.len() + x], pending@[x]),
        decreases pending@.len() - j,
    {
        let (process, match_id, kind) = pending[j];
        let ghost before = events@;
        let e = match kind {
            KvPendingOp::Read => Event::Return {
                client_id: Some(process),
                value: KvOutput::Read { value: String::new() },
                id: match_id,
                metadata: None,
            },
            KvPendingOp::Write => Event::Return { client_id: Some(process), value: KvOutput::Write, id: match_id, metadata: None },
            KvPendingOp::Append => Event::Return { client_id: Some(process), value: KvOutput::Append, id: match_id, metadata: None },
        };
        events.push(e);
        proof {
            assert(events@.take(base.len() as int) =~= before.take(base.len() as int));
            assert forall|x: int| 0 <= x < j + 1 implies kv_completes(#[trigger] events@[base.len() + x], pending@[x]) by {
                if x < j {
                    assert(events@[base.len() + x] == before[base.len() + x]);
                }
            }
        }
        j = j + 1;
    }
    events
}

} // verus!
