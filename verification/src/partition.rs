//! A partition: one independently checked sub-history, with its call and
//! return entries in time order.
use crate::events::{
    call_positions, calls_before, events_to_ops, firsts, ids_of, lemma_calls_before,
    lemma_firsts_are_calls, lemma_return_position, renumber, return_position,
};
use crate::history::precedes;
use crate::model::{events_wf, input_of, output_of, Event, EventModel, Model, Operation};
use vstd::prelude::*;

verus! {

#[derive(Clone, Copy, Debug, PartialEq, Eq, Structural)]
pub enum CheckEntry {
    Call { op_index: usize, time: i64 },
    Return { op_index: usize, time: i64 },
}

impl CheckEntry {
    pub open spec fn index(self) -> usize {
        match self {
            CheckEntry::Call { op_index, .. } => op_index,
            CheckEntry::Return { op_index, .. } => op_index,
        }
    }

    pub open spec fn at(self) -> i64 {
        match self {
            CheckEntry::Call { time, .. } => time,
            CheckEntry::Return { time, .. } => time,
        }
    }

    /// Calls sort before returns at the same time.
    pub open spec fn kind(self) -> u8 {
        match self {
            CheckEntry::Call { .. } => 0,
            CheckEntry::Return { .. } => 1,
        }
    }

    pub fn op_index(&self) -> (r: usize)
        ensures
            r == self.index(),
    {
        match self {
            CheckEntry::Call { op_index, .. } => *op_index,
            CheckEntry::Return { op_index, .. } => *op_index,
        }
    }

    pub fn time(&self) -> (r: i64)
        ensures
            r == self.at(),
    {
        match self {
            CheckEntry::Call { time, .. } => *time,
            CheckEntry::Return { time, .. } => *time,
        }
    }

    fn kind_order(&self) -> (r: u8)
        ensures
            r == self.kind(),
    {
        match self {
            CheckEntry::Call { .. } => 0,
            CheckEntry::Return { .. } => 1,
        }
    }
}

/// The order of the check history: by time, then calls before returns, then
/// by operation (which is the order in which a stable sort by time and kind
/// leaves entries that were generated operation by operation).
pub open spec fn entry_lt(a: CheckEntry, b: CheckEntry) -> bool {
    ||| a.at() < b.at()
    ||| a.at() == b.at() && a.kind() < b.kind()
    ||| a.at() == b.at() && a.kind() == b.kind() && a.index() < b.index()
}

/// `h` is strictly increasing in the check-history order.
pub open spec fn strictly_sorted(h: Seq<CheckEntry>) -> bool {
    forall|a: int, b: int| 0 <= a < b < h.len() ==> entry_lt(#[trigger] h[a], #[trigger] h[b])
}

/// The call entry of operation `i`.
pub open spec fn call_entry<M: Model>(ops: Seq<Operation<M>>, i: int) -> CheckEntry {
    CheckEntry::Call { op_index: i as usize, time: ops[i].call_time }
}

/// The return entry of operation `i`.
pub open spec fn return_entry<M: Model>(ops: Seq<Operation<M>>, i: int) -> CheckEntry {
    CheckEntry::Return { op_index: i as usize, time: ops[i].return_time }
}

/// `e` is the call or the return entry of one of the operations.
pub open spec fn entry_of<M: Model>(ops: Seq<Operation<M>>, e: CheckEntry) -> bool {
    &&& e.index() < ops.len()
    &&& e == call_entry(ops, e.index() as int) || e == return_entry(ops, e.index() as int)
}

/// `h` holds exactly the call and return entries of `ops`, in time order.
pub open spec fn is_check_history<M: Model>(ops: Seq<Operation<M>>, h: Seq<CheckEntry>) -> bool {
    &&& h.len() == 2 * ops.len()
    &&& strictly_sorted(h)
    &&& forall|k: int| 0 <= k < h.len() ==> entry_of(ops, #[trigger] h[k])
    &&& forall|i: int| 0 <= i < ops.len() ==> h.contains(#[trigger] call_entry(ops, i))
    &&& forall|i: int| 0 <= i < ops.len() ==> h.contains(#[trigger] return_entry(ops, i))
}

fn entry_before(a: &CheckEntry, b: &CheckEntry) -> (r: bool)
    ensures
        r == entry_lt(*a, *b),
{
    let (ta, tb) = (a.time(), b.time());
    if ta != tb {
        return ta < tb;
    }
    let (ka, kb) = (a.kind_order(), b.kind_order());
    if ka != kb {
        return ka < kb;
    }
    a.op_index() < b.op_index()
}

/// Two different entries are ordered one way or the other.
proof fn lemma_entry_lt_total(a: CheckEntry, b: CheckEntry)
    requires
        a != b,
    ensures
        entry_lt(a, b) || entry_lt(b, a),
{
}

/// Sort distinct entries into check-history order.
fn sort_entries(v: Vec<CheckEntry>) -> (r: Vec<CheckEntry>)
    requires
        forall|a: int, b: int| 0 <= a < b < v.len() ==> v@[a] != v@[b],
    ensures
        r.len() == v.len(),
        strictly_sorted(r@),
        forall|e: CheckEntry| r@.contains(e) <==> v@.contains(e),
{
    let mut r: Vec<CheckEntry> = Vec::new();
    let mut k: usize = 0;
    while k < v.len()
        invariant
            k <= v.len(),
            r.len() == k,
            strictly_sorted(r@),
            forall|e: CheckEntry| r@.contains(e) <==> v@.take(k as int).contains(e),
            forall|a: int, b: int| 0 <= a < b < v.len() ==> v@[a] != v@[b],
        decreases v.len() - k,
    {
        let e = v[k];
        let mut j: usize = 0;
        while j < r.len() && entry_before(&r[j], &e)
            invariant
                j <= r.len(),
                forall|a: int| 0 <= a < j ==> entry_lt(r@[a], e),
            decreases r.len() - j,
        {
            j = j + 1;
        }
        proof {
            assert(!v@.take(k as int).contains(e)) by {
                if v@.take(k as int).contains(e) {
                    let a = choose|a: int| 0 <= a < k && v@.take(k as int)[a] == e;
                    assert(v@[a] == v@[k as int]);
                }
            }
            assert(!r@.contains(e));
            assert forall|a: int| j <= a < r.len() implies entry_lt(e, r@[a]) by {
                if a > j {
                    assert(entry_lt(r@[j as int], r@[a]));
                }
                assert(r@[j as int] != e);
                lemma_entry_lt_total(r@[j as int], e);
            }
        }
        let ghost old_r = r@;
        r.insert(j, e);
        proof {
            assert forall|a: int, b: int| 0 <= a < b < r.len() implies entry_lt(
                #[trigger] r@[a],
                #[trigger] r@[b],
            ) by {
                if b < j {
                    assert(r@[a] == old_r[a] && r@[b] == old_r[b]);
                } else if b == j {
                    assert(r@[a] == old_r[a]);
                } else if a < j {
                    assert(r@[a] == old_r[a] && r@[b] == old_r[b - 1]);
                    if j < b - 1 || j == b - 1 {
                        assert(entry_lt(e, old_r[b - 1]));
                    }
                } else if a == j {
                    assert(r@[b] == old_r[b - 1]);
                } else {
                    assert(r@[a] == old_r[a - 1] && r@[b] == old_r[b - 1]);
                }
            }
            assert(v@.take(k + 1) =~= v@.take(k as int).push(e));
            assert forall|x: CheckEntry| r@.contains(x) <==> v@.take(k + 1).contains(x) by {
                if r@.contains(x) {
                    let a = choose|a: int| 0 <= a < r.len() && r@[a] == x;
                    if a < j {
                        assert(old_r[a] == x);
                        assert(old_r.contains(x));
                    } else if a > j {
                        assert(old_r[a - 1] == x);
                        assert(old_r.contains(x));
                    } else {
                        assert(x == e);
                        assert(v@.take(k + 1)[k as int] == e);
                    }
                    if x != e {
                        assert(v@.take(k as int).contains(x));
                        let b = choose|b: int| 0 <= b < k && v@.take(k as int)[b] == x;
                        assert(v@.take(k + 1)[b] == x);
                    }
                }
                if v@.take(k + 1).contains(x) {
                    if x == e {
                        assert(r@[j as int] == e);
                    } else {
                        assert(v@.take(k as int).contains(x));
                        assert(old_r.contains(x));
                        let a = choose|a: int| 0 <= a < old_r.len() && old_r[a] == x;
                        if a < j {
                            assert(r@[a] == x);
                        } else {
                            assert(r@[a + 1] == x);
                        }
                    }
                }
            }
        }
        k = k + 1;
    }
    assert(v@.take(v.len() as int) =~= v@);
    r
}

/// A strictly sorted history holds each entry at one position only.
pub proof fn lemma_sorted_injective(h: Seq<CheckEntry>, p: int, q: int)
    requires
        strictly_sorted(h),
        0 <= p < h.len(),
        0 <= q < h.len(),
        h[p] == h[q],
    ensures
        p == q,
{
    if p < q {
        assert(entry_lt(h[p], h[q]));
    } else if q < p {
        assert(entry_lt(h[q], h[p]));
    }
}

/// In the check history, the return of `j` comes before the call of `i`
/// exactly when `j` precedes `i` in real time.
pub proof fn lemma_return_before_call<M: Model>(
    ops: Seq<Operation<M>>,
    h: Seq<CheckEntry>,
    rp: int,
    cp: int,
    j: int,
    i: int,
)
    requires
        is_check_history(ops, h),
        0 <= rp < h.len(),
        0 <= cp < h.len(),
        0 <= i < ops.len(),
        0 <= j < ops.len(),
        h[rp] == return_entry(ops, j),
        h[cp] == call_entry(ops, i),
    ensures
        (rp < cp) <==> precedes(ops, j, i),
{
    if rp < cp {
        assert(entry_lt(h[rp], h[cp]));
    } else if cp < rp {
        assert(entry_lt(h[cp], h[rp]));
    }
}

pub struct Partition<M: Model> {
    /// Time-sorted interleaved call and return entries.
    pub check_history: Vec<CheckEntry>,
    /// Full operation data.  `ops[i]` is the operation with id `i`.
    pub ops: Vec<Operation<M>>,
}

impl<M: Model> Partition<M> {
    /// The check history lists exactly the entries of the operations, in
    /// time order.
    pub open spec fn wf(&self) -> bool {
        is_check_history(self.ops@, self.check_history@)
    }

    pub fn from_operations(operations: Vec<Operation<M>>) -> (p: Self)
        requires
            operations.len() <= usize::MAX / 2,
        ensures
            p.ops@ == operations@,
            p.wf(),
    {
        let ops = operations;
        let ghost s = ops@;
        let mut entries: Vec<CheckEntry> = Vec::new();
        let mut i: usize = 0;
        while i < ops.len()
            invariant
                i <= ops.len(),
                ops@ == s,
                ops.len() <= usize::MAX / 2,
                entries.len() == 2 * i,
                forall|k: int| 0 <= k < i ==> entries@[2 * k] == call_entry(s, k),
                forall|k: int| 0 <= k < i ==> entries@[2 * k + 1] == return_entry(s, k),
            decreases ops.len() - i,
        {
            entries.push(CheckEntry::Call { op_index: i, time: ops[i].call_time });
            entries.push(CheckEntry::Return { op_index: i, time: ops[i].return_time });
            i = i + 1;
        }
        proof {
            assert forall|a: int, b: int| 0 <= a < b < entries.len() implies entries@[a]
                != entries@[b] by {
                let (ka, kb) = (a / 2, b / 2);
                if a == 2 * ka {
                    assert(entries@[2 * ka] == call_entry(s, ka));
                } else {
                    assert(a == 2 * ka + 1);
                    assert(entries@[2 * ka + 1] == return_entry(s, ka));
                }
                if b == 2 * kb {
                    assert(entries@[2 * kb] == call_entry(s, kb));
                } else {
                    assert(b == 2 * kb + 1);
                    assert(entries@[2 * kb + 1] == return_entry(s, kb));
                }
            }
        }
        let check_history = sort_entries(entries);
        proof {
            let h = check_history@;
            assert forall|k: int| 0 <= k < h.len() implies entry_of(s, #[trigger] h[k]) by {
                assert(entries@.contains(h[k]));
                let a = choose|a: int| 0 <= a < entries.len() && entries@[a] == h[k];
                let ka = a / 2;
                if a == 2 * ka {
                    assert(entries@[2 * ka] == call_entry(s, ka));
                } else {
                    assert(a == 2 * ka + 1);
                    assert(entries@[2 * ka + 1] == return_entry(s, ka));
                }
            }
            assert forall|i: int| 0 <= i < s.len() implies h.contains(#[trigger] call_entry(s, i)) by {
                assert(entries@[2 * i] == call_entry(s, i));
                assert(entries@.contains(call_entry(s, i)));
            }
            assert forall|i: int| 0 <= i < s.len() implies h.contains(#[trigger] return_entry(s, i)) by {
                assert(entries@[2 * i + 1] == return_entry(s, i));
                assert(entries@.contains(return_entry(s, i)));
            }
        }
        Self { check_history, ops }
    }
}


/// A strictly sorted history of entries of `ops` that holds each call and
/// return entry holds nothing else: it is twice as long as `ops`.
proof fn lemma_entries_count<M: Model>(ops: Seq<Operation<M>>, h: Seq<CheckEntry>)
    requires
        ops.len() <= usize::MAX,
        strictly_sorted(h),
        forall|k: int| 0 <= k < h.len() ==> entry_of(ops, #[trigger] h[k]),
        forall|i: int| 0 <= i < ops.len() ==> h.contains(#[trigger] call_entry(ops, i)),
        forall|i: int| 0 <= i < ops.len() ==> h.contains(#[trigger] return_entry(ops, i)),
    ensures
        h.len() == 2 * ops.len(),
{
    let e = Seq::new(
        (2 * ops.len()) as nat,
        |j: int|
            if j % 2 == 0 {
                call_entry(ops, j / 2)
            } else {
                return_entry(ops, j / 2)
            },
    );
    assert(e.no_duplicates()) by {
        assert forall|a: int, b: int| 0 <= a < e.len() && 0 <= b < e.len() && a != b implies e[a]
            != e[b] by {
            if a % 2 == b % 2 {
                assert(a / 2 != b / 2);
                assert((a / 2) as usize != (b / 2) as usize);
            }
        }
    }
    assert(h.no_duplicates()) by {
        assert forall|a: int, b: int| 0 <= a < h.len() && 0 <= b < h.len() && a != b implies h[a]
            != h[b] by {
            if h[a] == h[b] {
                lemma_sorted_injective(h, a, b);
            }
        }
    }
    assert(h.to_set() =~= e.to_set()) by {
        assert forall|x: CheckEntry| h.contains(x) implies e.contains(x) by {
            let k = choose|k: int| 0 <= k < h.len() && h[k] == x;
            assert(entry_of(ops, h[k]));
            let i = x.index() as int;
            if x == call_entry(ops, i) {
                assert(e[2 * i] == x);
            } else {
                assert(e[2 * i + 1] == x);
            }
        }
        assert forall|x: CheckEntry| e.contains(x) implies h.contains(x) by {
            let j = choose|j: int| 0 <= j < e.len() && e[j] == x;
            if j % 2 == 0 {
                assert(h.contains(call_entry(ops, j / 2)));
            } else {
                assert(h.contains(return_entry(ops, j / 2)));
            }
        }
    }
    h.unique_seq_to_set();
    e.unique_seq_to_set();
}

/// `new_ids` numbers the operations of a well-formed history by their
/// calls: the call at position `k` is the call of operation `new_ids[k]`,
/// and a return is the return of that operation.
pub open spec fn positioned<M: EventModel>(evs: Seq<Event<M>>, new_ids: Seq<usize>) -> bool {
    let cs = call_positions(evs);
    &&& new_ids.len() == evs.len()
    &&& forall|k: int|
        0 <= k < evs.len() ==> {
            &&& #[trigger] new_ids[k] < cs.len()
            &&& evs[k] is Call ==> cs[new_ids[k] as int] == k
            &&& evs[k] is Return ==> cs[new_ids[k] as int] < k && return_position(
                evs,
                cs[new_ids[k] as int],
            ) == k
        }
}

/// The call positions of a well-formed history hold distinct calls, each
/// before its return, and distinct calls have distinct returns.
pub open spec fn calls_laid_out<M: EventModel>(evs: Seq<Event<M>>) -> bool {
    let cs = call_positions(evs);
    &&& forall|i: int|
        0 <= i < cs.len() ==> {
            let c = #[trigger] cs[i];
            &&& 0 <= c < return_position(evs, c) < evs.len()
            &&& evs[c] is Call
            &&& evs[return_position(evs, c)] is Return
            &&& evs[return_position(evs, c)].event_id() == evs[c].event_id()
        }
    &&& forall|i: int, j: int| 0 <= i < j < cs.len() ==> #[trigger] cs[i] < #[trigger] cs[j]
    &&& forall|i: int, j: int|
        0 <= i < cs.len() && 0 <= j < cs.len() && i != j ==> return_position(evs, #[trigger] cs[i])
            != return_position(evs, #[trigger] cs[j])
}

/// Numbering ids by first appearance numbers the operations of a
/// well-formed history by their calls.
#[verifier::rlimit(30)]
proof fn lemma_positioned<M: EventModel>(evs: Seq<Event<M>>, new_ids: Seq<usize>)
    requires
        events_wf(evs),
        new_ids.len() == evs.len(),
        forall|j: int|
            0 <= j < evs.len() ==> #[trigger] new_ids[j] < firsts(ids_of(evs)).len() && firsts(
                ids_of(evs),
            )[new_ids[j] as int] == ids_of(evs)[j],
    ensures
        positioned(evs, new_ids),
{
    let n = evs.len() as int;
    lemma_firsts_are_calls(evs, n);
    assert(ids_of(evs).take(n) =~= ids_of(evs));
    lemma_calls_before(evs, n);
    let cs = call_positions(evs);
    let f = firsts(ids_of(evs));
    assert(f == cs.map_values(|c: int| evs[c].event_id()));
    assert forall|k: int| 0 <= k < evs.len() implies {
        &&& #[trigger] new_ids[k] < cs.len()
        &&& evs[k] is Call ==> cs[new_ids[k] as int] == k
        &&& evs[k] is Return ==> cs[new_ids[k] as int] < k && return_position(
            evs,
            cs[new_ids[k] as int],
        ) == k
    } by {
        let i = new_ids[k] as int;
        assert(f[i] == ids_of(evs)[k]);
        let c = cs[i];
        assert(f[i] == evs[c].event_id());
        assert(evs[c].event_id() == evs[k].event_id());
        assert(evs[c] is Call);
        if evs[k] is Call {
            if c < k {
                assert(evs[k] is Return);
            } else if k < c {
                assert(evs[c] is Return);
            }
        } else {
            lemma_return_position(evs, c);
            if k < c {
                assert(evs[k] is Call);
            }
        }
    }
}

/// The calls of a well-formed history are laid out in order, each before
/// its own return.
#[verifier::rlimit(30)]
proof fn lemma_calls_laid_out<M: EventModel>(evs: Seq<Event<M>>)
    requires
        events_wf(evs),
    ensures
        calls_laid_out(evs),
{
    let n = evs.len() as int;
    lemma_calls_before(evs, n);
    let cs = call_positions(evs);
    assert forall|i: int| 0 <= i < cs.len() implies {
        let c = #[trigger] cs[i];
        &&& 0 <= c < return_position(evs, c) < evs.len()
        &&& evs[c] is Call
        &&& evs[return_position(evs, c)] is Return
        &&& evs[return_position(evs, c)].event_id() == evs[c].event_id()
    } by {
        lemma_return_position(evs, cs[i]);
    }
    assert forall|i: int, j: int|
        0 <= i < cs.len() && 0 <= j < cs.len() && i != j implies return_position(
        evs,
        #[trigger] cs[i],
    ) != return_position(evs, #[trigger] cs[j]) by {
        lemma_return_position(evs, cs[i]);
        lemma_return_position(evs, cs[j]);
        if return_position(evs, cs[i]) == return_position(evs, cs[j]) {
            if i < j {
                assert(cs[i] < cs[j]);
                assert(evs[cs[i]].event_id() == evs[cs[j]].event_id());
                assert(evs[cs[j]] is Return);
            } else {
                assert(cs[j] < cs[i]);
                assert(evs[cs[j]].event_id() == evs[cs[i]].event_id());
                assert(evs[cs[i]] is Return);
            }
        }
    }
}

/// The check-history entry of the event at position `k`.
pub open spec fn event_entry<M: EventModel>(evs: Seq<Event<M>>, new_ids: Seq<usize>, k: int) -> CheckEntry {
    if evs[k] is Call {
        CheckEntry::Call { op_index: new_ids[k], time: k as i64 }
    } else {
        CheckEntry::Return { op_index: new_ids[k], time: k as i64 }
    }
}

/// The ids of the events, and the positions of the calls.
fn event_ids<M: EventModel>(events: &Vec<Event<M>>) -> (r: (Vec<usize>, Vec<usize>))
    ensures
        r.0@ == ids_of(events@),
        r.1@.len() == call_positions(events@).len(),
        forall|j: int| 0 <= j < r.1@.len() ==> #[trigger] r.1@[j] as int == call_positions(events@)[j],
{
    let ghost evs = events@;
    let n = events.len();
    let mut ids: Vec<usize> = Vec::new();
    let mut calls: Vec<usize> = Vec::new();
    let mut k: usize = 0;
    while k < n
        invariant
            n == evs.len(),
            events@ == evs,
            k <= n,
            ids@ == ids_of(evs).take(k as int),
            calls@.len() == calls_before(evs, k as int).len(),
            forall|j: int| 0 <= j < calls@.len() ==> #[trigger] calls@[j] as int == calls_before(evs, k as int)[j],
        decreases n - k,
    {
        match &events[k] {
            Event::Call { id, .. } => {
                ids.push(*id);
                calls.push(k);
            },
            Event::Return { id, .. } => {
                ids.push(*id);
            },
        }
        proof {
            assert(ids@ =~= ids_of(evs).take(k + 1));
        }
        k = k + 1;
    }
    proof {
        assert(ids@ =~= ids_of(evs));
    }
    (ids, calls)
}

/// One check-history entry per event, at its position.
fn event_check_history<M: EventModel>(events: &Vec<Event<M>>, new_ids: &Vec<usize>) -> (h: Vec<CheckEntry>)
    requires
        events@.len() < usize::MAX / 2,
        new_ids@.len() == events@.len(),
    ensures
        h@.len() == events@.len(),
        forall|k: int| 0 <= k < h@.len() ==> #[trigger] h@[k] == event_entry(events@, new_ids@, k),
{
    let n = events.len();
    let mut h: Vec<CheckEntry> = Vec::new();
    let mut k: usize = 0;
    while k < n
        invariant
            n == events@.len(),
            n < usize::MAX / 2,
            k <= n,
            new_ids@.len() == n,
            h@.len() == k,
            forall|j: int| 0 <= j < k ==> #[trigger] h@[j] == event_entry(events@, new_ids@, j),
        decreases n - k,
    {
        let t = k as i64;
        match &events[k] {
            Event::Call { .. } => {
                h.push(CheckEntry::Call { op_index: new_ids[k], time: t });
            },
            Event::Return { .. } => {
                h.push(CheckEntry::Return { op_index: new_ids[k], time: t });
            },
        }
        k = k + 1;
    }
    h
}

/// The position of each operation's return.
fn return_positions<M: EventModel>(events: &Vec<Event<M>>, new_ids: &Vec<usize>, m: usize) -> (r: Vec<usize>)
    requires
        positioned(events@, new_ids@),
        calls_laid_out(events@),
        m == call_positions(events@).len(),
    ensures
        r@.len() == m,
        forall|i: int| 0 <= i < m ==> #[trigger] r@[i] == return_position(events@, call_positions(events@)[i]),
{
    let ghost evs = events@;
    let ghost cs = call_positions(evs);
    let n = events.len();
    let mut retpos: Vec<usize> = vec![0; m];
    let mut k: usize = 0;
    while k < n
        invariant
            n == evs.len(),
            events@ == evs,
            positioned(evs, new_ids@),
            calls_laid_out(evs),
            cs == call_positions(evs),
            k <= n,
            m == cs.len(),
            retpos@.len() == m,
            forall|i: int|
                0 <= i < m && return_position(evs, #[trigger] cs[i]) < k ==> retpos@[i]
                    == return_position(evs, cs[i]),
        decreases n - k,
    {
        let ghost old_retpos = retpos@;
        match &events[k] {
            Event::Call { .. } => {},
            Event::Return { .. } => {
                proof {
                    assert(new_ids@[k as int] < cs.len());
                }
                retpos.set(new_ids[k], k);
            },
        }
        proof {
            assert forall|i: int|
                0 <= i < m && return_position(evs, #[trigger] cs[i]) < k + 1 implies retpos@[i]
                    == return_position(evs, cs[i]) by {
                if return_position(evs, cs[i]) == k {
                    assert(evs[k as int] is Return);
                    let i2 = new_ids@[k as int] as int;
                    if i2 != i {
                        assert(return_position(evs, cs[i2]) == k);
                    }
                } else if evs[k as int] is Return {
                    let i2 = new_ids@[k as int] as int;
                    if i2 == i {
                        assert(return_position(evs, cs[i2]) == k);
                    }
                    assert(retpos@[i] == old_retpos[i]);
                }
            }
        }
        k = k + 1;
    }
    retpos
}

/// The events, each in a slot of its own that can be emptied.
fn into_slots<M: EventModel>(events: Vec<Event<M>>) -> (slots: Vec<Option<Event<M>>>)
    ensures
        slots@.len() == events@.len(),
        forall|j: int| 0 <= j < slots@.len() ==> #[trigger] slots@[j] == Some(events@[j]),
{
    let ghost evs = events@;
    let n = events.len();
    let mut events = events;
    let mut reversed: Vec<Event<M>> = Vec::new();
    while events.len() > 0
        invariant
            events@.len() + reversed@.len() == n,
            n == evs.len(),
            events@ == evs.take(events@.len() as int),
            forall|j: int| 0 <= j < reversed@.len() ==> #[trigger] reversed@[j] == evs[n - 1 - j],
        decreases events@.len(),
    {
        let e = events.pop().unwrap();
        reversed.push(e);
        proof {
            assert(events@ =~= evs.take(events@.len() as int));
        }
    }
    let mut slots: Vec<Option<Event<M>>> = Vec::new();
    while reversed.len() > 0
        invariant
            slots@.len() + reversed@.len() == n,
            n == evs.len(),
            forall|j: int| 0 <= j < reversed@.len() ==> #[trigger] reversed@[j] == evs[n - 1 - j],
            forall|j: int| 0 <= j < slots@.len() ==> #[trigger] slots@[j] == Some(evs[j]),
        decreases reversed@.len(),
    {
        let e = reversed.pop().unwrap();
        slots.push(Some(e));
    }
    slots
}

/// Combine each call with its return into the operation they describe.
#[verifier::rlimit(60)]
fn combine_events<M: EventModel>(
    slots: Vec<Option<Event<M>>>,
    calls: &Vec<usize>,
    retpos: &Vec<usize>,
    Ghost(evs): Ghost<Seq<Event<M>>>,
) -> (ops: Vec<Operation<M>>)
    requires
        events_wf(evs),
        calls_laid_out(evs),
        evs.len() < usize::MAX / 2,
        slots@.len() == evs.len(),
        forall|j: int| 0 <= j < slots@.len() ==> #[trigger] slots@[j] == Some(evs[j]),
        calls@.len() == call_positions(evs).len(),
        forall|j: int| 0 <= j < calls@.len() ==> #[trigger] calls@[j] as int == call_positions(evs)[j],
        retpos@.len() == calls@.len(),
        forall|j: int|
            0 <= j < retpos@.len() ==> #[trigger] retpos@[j] == return_position(evs, call_positions(evs)[j]),
    ensures
        ops@ == events_to_ops(evs),
{
    let ghost cs = call_positions(evs);
    let n = slots.len();
    let m = calls.len();
    let mut slots = slots;
    let mut ops: Vec<Operation<M>> = Vec::new();
    let mut i: usize = 0;
    while i < m
        invariant
            n == evs.len(),
            n < usize::MAX / 2,
            events_wf(evs),
            calls_laid_out(evs),
            cs == call_positions(evs),
            m == cs.len(),
            i <= m,
            calls@.len() == m,
            forall|j: int| 0 <= j < m ==> #[trigger] calls@[j] as int == cs[j],
            retpos@.len() == m,
            forall|j: int| 0 <= j < m ==> #[trigger] retpos@[j] == return_position(evs, cs[j]),
            slots@.len() == n,
            forall|j: int| 0 <= j < n && (#[trigger] slots@[j]) is Some ==> slots@[j] == Some(evs[j]),
            forall|j: int|
                i <= j < m ==> (#[trigger] slots@[cs[j]]) is Some && slots@[return_position(
                    evs,
                    cs[j],
                )] is Some,
            ops@.len() == i,
            forall|j: int| 0 <= j < i ==> #[trigger] ops@[j] == events_to_ops(evs)[j],
        decreases m - i,
    {
        let c = calls[i];
        let q = retpos[i];
        proof {
            assert(calls@[i as int] as int == cs[i as int]);
            assert(cs[i as int] < return_position(evs, cs[i as int]) < n);
            assert(evs[cs[i as int]].event_id() == evs[return_position(evs, cs[i as int])].event_id());
        }
        let mut ce: Option<Event<M>> = None;
        slots.set_and_swap(c, &mut ce);
        let mut re: Option<Event<M>> = None;
        slots.set_and_swap(q, &mut re);
        proof {
            assert(ce == Some(evs[c as int]));
            assert(re == Some(evs[q as int]));
            assert(M::combines(input_of(evs[c as int]), output_of(evs[q as int])));
        }
        match ce {
            Some(Event::Call { client_id, value, metadata, .. }) => {
                match re {
                    Some(Event::Return { value: out, metadata: ret_metadata, .. }) => {
                        let op = M::combine(&value, &out);
                        let md = match metadata {
                            Some(x) => Some(x),
                            None => ret_metadata,
                        };
                        ops.push(
                            Operation {
                                client_id,
                                call_time: c as i64,
                                return_time: q as i64,
                                op,
                                metadata: md,
                            },
                        );
                    },
                    _ => {},
                }
            },
            _ => {},
        }
        proof {
            assert forall|j: int| i < j < m implies (#[trigger] slots@[cs[j]]) is Some
                && slots@[return_position(evs, cs[j])] is Some by {
                assert(cs[i as int] < cs[j]);
                assert(evs[cs[j]] is Call);
                assert(evs[return_position(evs, cs[i as int])] is Return);
                assert(return_position(evs, cs[i as int]) != return_position(evs, cs[j]));
            }
        }
        i = i + 1;
    }
    proof {
        assert(ops@ =~= events_to_ops(evs));
    }
    ops
}

/// What the entries of a well-formed event history, numbered by its calls,
/// are: entries of its operations, and all of them.
#[verifier::rlimit(30)]
proof fn lemma_event_entries<M: EventModel>(evs: Seq<Event<M>>, new_ids: Seq<usize>, h: Seq<CheckEntry>)
    requires
        evs.len() < usize::MAX / 2,
        positioned(evs, new_ids),
        calls_laid_out(evs),
        h.len() == evs.len(),
        forall|k: int| 0 <= k < h.len() ==> #[trigger] h[k] == event_entry(evs, new_ids, k),
    ensures
        forall|j: int| 0 <= j < h.len() ==> entry_of(events_to_ops(evs), #[trigger] h[j]),
        forall|x: int|
            0 <= x < events_to_ops(evs).len() ==> h.contains(#[trigger] call_entry(events_to_ops(evs), x)),
{
    let cs = call_positions(evs);
    let os = events_to_ops(evs);
    assert forall|j: int| 0 <= j < h.len() implies entry_of(os, #[trigger] h[j]) by {
        let i = new_ids[j] as int;
        assert(new_ids[j] < cs.len());
        if evs[j] is Call {
            assert(cs[i] == j);
            assert(h[j] == call_entry(os, i));
        } else {
            assert(return_position(evs, cs[i]) == j);
            assert(h[j] == return_entry(os, i));
        }
    }
    assert forall|x: int| 0 <= x < os.len() implies h.contains(#[trigger] call_entry(os, x)) by {
        let c = cs[x];
        assert(evs[c] is Call);
        let x2 = new_ids[c] as int;
        assert(new_ids[c] < cs.len());
        assert(cs[x2] == c);
        if x2 < x {
            assert(cs[x2] < cs[x]);
        } else if x < x2 {
            assert(cs[x] < cs[x2]);
        }
        assert(h[c] == call_entry(os, x));
    }
}

/// Every return entry of the operations of a well-formed event history is
/// among its entries.
#[verifier::rlimit(30)]
proof fn lemma_event_return_entries<M: EventModel>(evs: Seq<Event<M>>, new_ids: Seq<usize>, h: Seq<CheckEntry>)
    requires
        evs.len() < usize::MAX / 2,
        positioned(evs, new_ids),
        calls_laid_out(evs),
        h.len() == evs.len(),
        forall|k: int| 0 <= k < h.len() ==> #[trigger] h[k] == event_entry(evs, new_ids, k),
    ensures
        forall|x: int|
            0 <= x < events_to_ops(evs).len() ==> h.contains(#[trigger] return_entry(events_to_ops(evs), x)),
{
    let cs = call_positions(evs);
    let os = events_to_ops(evs);
    assert forall|x: int| 0 <= x < os.len() implies h.contains(#[trigger] return_entry(os, x)) by {
        let q = return_position(evs, cs[x]);
        assert(0 <= q < evs.len());
        assert(evs[q] is Return);
        let x2 = new_ids[q] as int;
        assert(new_ids[q] < cs.len());
        assert(return_position(evs, cs[x2]) == q);
        if x2 != x {
            assert(return_position(evs, cs[x2]) != return_position(evs, cs[x]));
        }
        assert(h[q] == return_entry(os, x));
    }
}

/// The entries of a well-formed event history, numbered by its calls, form
/// the check history of its operations.
proof fn lemma_event_check_history<M: EventModel>(
    evs: Seq<Event<M>>,
    new_ids: Seq<usize>,
    h: Seq<CheckEntry>,
)
    requires
        evs.len() < usize::MAX / 2,
        positioned(evs, new_ids),
        calls_laid_out(evs),
        h.len() == evs.len(),
        forall|k: int| 0 <= k < h.len() ==> #[trigger] h[k] == event_entry(evs, new_ids, k),
    ensures
        is_check_history(events_to_ops(evs), h),
{
    let os = events_to_ops(evs);
    assert forall|a: int, b: int| 0 <= a < b < h.len() implies entry_lt(#[trigger] h[a], #[trigger] h[b]) by {
        assert(h[a].at() == a as i64);
        assert(h[b].at() == b as i64);
    }
    lemma_event_entries(evs, new_ids, h);
    lemma_event_return_entries(evs, new_ids, h);
    lemma_calls_before(evs, evs.len() as int);
    lemma_entries_count(os, h);
}

impl<M: EventModel> Partition<M> {
    /// Build a partition from a history of call and return events.
    ///
    /// The event ids are renumbered in the order of the calls, so that the
    /// operation of the `i`-th call is `ops[i]`; each event's time stamp is
    /// its position in the history.
    pub fn from_events(events: Vec<Event<M>>) -> (p: Self)
        requires
            events_wf(events@),
            events@.len() < usize::MAX / 2,
        ensures
            p.ops@ == events_to_ops(events@),
            p.wf(),
            p.check_history@.len() == events@.len(),
    {
        let ghost evs = events@;
        let (ids, calls) = event_ids(&events);
        let new_ids = renumber(&ids);
        proof {
            lemma_positioned(evs, new_ids@);
            lemma_calls_laid_out(evs);
        }
        let m = calls.len();
        let check_history = event_check_history(&events, &new_ids);
        let retpos = return_positions(&events, &new_ids, m);
        let slots = into_slots(events);
        let ops = combine_events(slots, &calls, &retpos, Ghost(evs));
        proof {
            lemma_event_check_history(evs, new_ids@, check_history@);
        }
        Self { check_history, ops }
    }
}

} // verus!
