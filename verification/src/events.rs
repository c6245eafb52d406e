//! Histories recorded as call and return events: how their ids are
//! numbered, and which operations they describe.
use crate::model::{events_paired, has_partner, input_of, output_of, Event, EventModel, Operation};
use std::collections::HashMap;
use vstd::prelude::*;

verus! {

broadcast use vstd::std_specs::hash::group_hash_axioms;

/// The ids of the events.
pub open spec fn ids_of<M: EventModel>(evs: Seq<Event<M>>) -> Seq<usize> {
    evs.map_values(|e: Event<M>| e.event_id())
}

/// The distinct values of `ids`, in the order of their first appearance.
pub open spec fn firsts(ids: Seq<usize>) -> Seq<usize>
    decreases ids.len(),
{
    if ids.len() == 0 {
        Seq::empty()
    } else {
        let prev = firsts(ids.drop_last());
        if prev.contains(ids.last()) {
            prev
        } else {
            prev.push(ids.last())
        }
    }
}

/// `firsts` lists every id once, and nothing else.
pub proof fn lemma_firsts(ids: Seq<usize>)
    ensures
        firsts(ids).no_duplicates(),
        firsts(ids).len() <= ids.len(),
        forall|x: usize| #[trigger] firsts(ids).contains(x) <==> ids.contains(x),
    decreases ids.len(),
{
    if ids.len() > 0 {
        let h = ids.drop_last();
        lemma_firsts(h);
        let prev = firsts(h);
        assert forall|x: usize| #[trigger] firsts(ids).contains(x) <==> ids.contains(x) by {
            if ids.contains(x) && x != ids.last() {
                let w = choose|w: int| 0 <= w < ids.len() && ids[w] == x;
                assert(h[w] == x);
                assert(h.contains(x));
            }
            if h.contains(x) {
                let w = choose|w: int| 0 <= w < h.len() && h[w] == x;
                assert(ids[w] == x);
            }
            if firsts(ids).contains(x) && !prev.contains(x) {
                assert(x == ids.last());
                assert(ids[ids.len() - 1] == x);
            }
            if prev.contains(x) && !prev.contains(ids.last()) {
                let w = choose|w: int| 0 <= w < prev.len() && prev[w] == x;
                assert(prev.push(ids.last())[w] == x);
            }
            if x == ids.last() && !prev.contains(ids.last()) {
                assert(prev.push(ids.last())[prev.len() as int] == x);
            }
        }
    }
}

/// Number each id by the order of its first appearance: the first id seen
/// becomes 0, the next new one 1, and so on.
pub fn renumber(ids: &Vec<usize>) -> (r: Vec<usize>)
    ensures
        r@.len() == ids@.len(),
        forall|k: int|
            0 <= k < ids@.len() ==> #[trigger] r@[k] < firsts(ids@).len() && firsts(ids@)[r@[k] as int]
                == ids@[k],
{
    let mut remap: HashMap<usize, usize> = HashMap::new();
    let mut next: usize = 0;
    let mut r: Vec<usize> = Vec::new();
    let mut k: usize = 0;
    while k < ids.len()
        invariant
            k <= ids@.len(),
            next == firsts(ids@.take(k as int)).len(),
            r@.len() == k,
            forall|key: usize| #[trigger] remap@.contains_key(key) <==> firsts(ids@.take(k as int)).contains(key),
            forall|key: usize|
                #[trigger] remap@.contains_key(key) ==> remap@[key] < next && firsts(
                    ids@.take(k as int),
                )[remap@[key] as int] == key,
            forall|j: int|
                0 <= j < k ==> #[trigger] r@[j] < next && firsts(ids@.take(k as int))[r@[j] as int]
                    == ids@[j],
        decreases ids@.len() - k,
    {
        let ghost f0 = firsts(ids@.take(k as int));
        let ghost s1 = ids@.take(k + 1);
        let id = ids[k];
        proof {
            assert(s1.drop_last() =~= ids@.take(k as int));
            assert(s1.last() == id);
            lemma_firsts(ids@.take(k as int));
            lemma_firsts(s1);
        }
        match remap.get(&id) {
            Some(v) => {
                let v = *v;
                proof {
                    assert(f0.contains(id));
                    assert(firsts(s1) == f0);
                }
                r.push(v);
            },
            None => {
                proof {
                    assert(!f0.contains(id));
                    assert(firsts(s1) == f0.push(id));
                    assert(f0.len() <= k);
                }
                remap.insert(id, next);
                r.push(next);
                proof {
                    assert(firsts(s1)[next as int] == id);
                    assert forall|key: usize| #[trigger] remap@.contains_key(key) <==> firsts(
                        s1,
                    ).contains(key) by {
                        if key != id && f0.contains(key) {
                            let w = choose|w: int| 0 <= w < f0.len() && f0[w] == key;
                            assert(firsts(s1)[w] == key);
                        }
                        if key != id && firsts(s1).contains(key) {
                            let w = choose|w: int| 0 <= w < firsts(s1).len() && firsts(s1)[w] == key;
                            assert(w < f0.len());
                            assert(f0[w] == key);
                        }
                        if key == id {
                            assert(firsts(s1)[next as int] == id);
                        }
                    }
                }
                next = next + 1;
            },
        }
        k = k + 1;
    }
    proof {
        assert(ids@.take(ids@.len() as int) =~= ids@);
    }
    r
}

// ---------------------------------------------------------------------------
// The operations that an event history describes
// ---------------------------------------------------------------------------

/// The client of an event.
pub open spec fn client_of<M: EventModel>(e: Event<M>) -> Option<u32> {
    match e {
        Event::Call { client_id, .. } => client_id,
        Event::Return { client_id, .. } => client_id,
    }
}

/// The metadata of an event.
pub open spec fn metadata_of<M: EventModel>(e: Event<M>) -> Option<M::Metadata> {
    match e {
        Event::Call { metadata, .. } => metadata,
        Event::Return { metadata, .. } => metadata,
    }
}

/// The positions below `k` that hold calls, in order.
pub open spec fn calls_before<M: EventModel>(evs: Seq<Event<M>>, k: int) -> Seq<int>
    decreases k,
{
    if k <= 0 {
        Seq::empty()
    } else {
        let prev = calls_before(evs, k - 1);
        if evs[k - 1] is Call {
            prev.push(k - 1)
        } else {
            prev
        }
    }
}

/// The positions of the calls, in order.
pub open spec fn call_positions<M: EventModel>(evs: Seq<Event<M>>) -> Seq<int> {
    calls_before(evs, evs.len() as int)
}

/// The position of the return that matches the call at `c`.
pub open spec fn return_position<M: EventModel>(evs: Seq<Event<M>>, c: int) -> int {
    choose|q: int| c < q < evs.len() && evs[q].event_id() == evs[c].event_id()
}

/// The operation made of the call at `c` and the return at `q`: its time
/// stamps are their positions, and its metadata is the call's, or else the
/// return's.
pub open spec fn op_of<M: EventModel>(evs: Seq<Event<M>>, c: int, q: int) -> Operation<M> {
    Operation {
        client_id: client_of(evs[c]),
        call_time: c as i64,
        return_time: q as i64,
        op: M::combine_spec(input_of(evs[c]), output_of(evs[q])),
        metadata: match metadata_of(evs[c]) {
            Some(m) => Some(m),
            None => metadata_of(evs[q]),
        },
    }
}

/// The operations of an event history, one per call, in the order of the
/// calls.
pub open spec fn events_to_ops<M: EventModel>(evs: Seq<Event<M>>) -> Seq<Operation<M>> {
    let cs = call_positions(evs);
    Seq::new(cs.len(), |i: int| op_of(evs, cs[i], return_position(evs, cs[i])))
}

/// The call positions are increasing calls below `k`, and every call below
/// `k` is one of them.
pub proof fn lemma_calls_before<M: EventModel>(evs: Seq<Event<M>>, k: int)
    requires
        0 <= k <= evs.len(),
    ensures
        calls_before(evs, k).len() <= k,
        forall|i: int|
            0 <= i < calls_before(evs, k).len() ==> 0 <= #[trigger] calls_before(evs, k)[i] < k
                && evs[calls_before(evs, k)[i]] is Call,
        forall|i: int, j: int|
            0 <= i < j < calls_before(evs, k).len() ==> #[trigger] calls_before(evs, k)[i]
                < #[trigger] calls_before(evs, k)[j],
        forall|c: int| 0 <= c < k && #[trigger] evs[c] is Call ==> calls_before(evs, k).contains(c),
    decreases k,
{
    if k > 0 {
        lemma_calls_before(evs, k - 1);
        let prev = calls_before(evs, k - 1);
        assert forall|c: int| 0 <= c < k && #[trigger] evs[c] is Call implies calls_before(
            evs,
            k,
        ).contains(c) by {
            if c < k - 1 {
                let w = choose|w: int| 0 <= w < prev.len() && prev[w] == c;
                if evs[k - 1] is Call {
                    assert(prev.push(k - 1)[w] == c);
                }
            } else {
                assert(prev.push(k - 1)[prev.len() as int] == c);
            }
        }
    }
}

/// In a paired history, the ids in the order of their first appearance are
/// the ids of the calls, in order.
#[verifier::rlimit(30)]
pub proof fn lemma_firsts_are_calls<M: EventModel>(evs: Seq<Event<M>>, k: int)
    requires
        events_paired(evs),
        0 <= k <= evs.len(),
    ensures
        firsts(ids_of(evs).take(k)) == calls_before(evs, k).map_values(|c: int| evs[c].event_id()),
    decreases k,
{
    let ids = ids_of(evs);
    if k == 0 {
        assert(ids.take(0) =~= Seq::<usize>::empty());
        assert(calls_before(evs, 0).map_values(|c: int| evs[c].event_id()) =~= Seq::<usize>::empty());
    } else {
        lemma_firsts_are_calls(evs, k - 1);
        let s = ids.take(k);
        let prev_ids = ids.take(k - 1);
        assert(s.drop_last() =~= prev_ids);
        let id = evs[k - 1].event_id();
        assert(s.last() == id);
        lemma_firsts(prev_ids);
        let prev_calls = calls_before(evs, k - 1);
        if evs[k - 1] is Call {
            assert(!prev_ids.contains(id)) by {
                if prev_ids.contains(id) {
                    let j = choose|j: int| 0 <= j < prev_ids.len() && prev_ids[j] == id;
                    assert(evs[j].event_id() == evs[k - 1].event_id());
                }
            }
            assert(calls_before(evs, k) == prev_calls.push(k - 1));
            assert(prev_calls.push(k - 1).map_values(|c: int| evs[c].event_id()) =~= prev_calls.map_values(
                |c: int| evs[c].event_id(),
            ).push(id));
        } else {
            assert(has_partner(evs, k - 1));
            let b = choose|b: int|
                0 <= b < evs.len() && b != k - 1 && #[trigger] evs[b].event_id() == evs[k - 1].event_id();
            if b > k - 1 {
                assert(evs[k - 1] is Call);
            }
            assert(prev_ids[b] == id);
            assert(prev_ids.contains(id));
        }
    }
}

/// In a paired history, the call at `c` has exactly one return after it
/// with its id, at `return_position`.
pub proof fn lemma_return_position<M: EventModel>(evs: Seq<Event<M>>, c: int)
    requires
        events_paired(evs),
        0 <= c < evs.len(),
        evs[c] is Call,
    ensures
        c < return_position(evs, c) < evs.len(),
        evs[return_position(evs, c)] is Return,
        evs[return_position(evs, c)].event_id() == evs[c].event_id(),
        forall|q: int|
            0 <= q < evs.len() && q != c && #[trigger] evs[q].event_id() == evs[c].event_id() ==> q
                == return_position(evs, c),
{
    assert(has_partner(evs, c));
    let b = choose|b: int| 0 <= b < evs.len() && b != c && #[trigger] evs[b].event_id() == evs[c].event_id();
    if b < c {
        assert(evs[c] is Return);
    }
    assert(c < b < evs.len() && evs[b].event_id() == evs[c].event_id());
    let q0 = return_position(evs, c);
    assert forall|q: int|
        0 <= q < evs.len() && q != c && #[trigger] evs[q].event_id() == evs[c].event_id() implies q
            == q0 by {
        if q < c {
            assert(evs[c] is Return);
        }
        if q < q0 {
            assert(evs[q0] is Return);
            assert(evs[q] is Call);
        } else if q0 < q {
            assert(evs[q] is Return);
            assert(evs[q0] is Call);
        }
    }
}

// ---------------------------------------------------------------------------
// Checking that calls and returns pair up
// ---------------------------------------------------------------------------

/// Among the first `k` events, any two with the same id are a call and then
/// its return.
pub open spec fn paired_below<M: EventModel>(evs: Seq<Event<M>>, k: int) -> bool {
    forall|a: int, b: int|
        0 <= a < b < k && (#[trigger] evs[a]).event_id() == (#[trigger] evs[b]).event_id() ==> evs[a] is Call
            && evs[b] is Return
}

/// Some event below `k` has id `x`.
pub open spec fn id_below<M: EventModel>(s: Seq<Event<M>>, k: int, x: usize) -> bool {
    exists|j: int| 0 <= j < k && #[trigger] s[j].event_id() == x
}

/// Some return below `k` has id `x`.
pub open spec fn return_below<M: EventModel>(s: Seq<Event<M>>, k: int, x: usize) -> bool {
    exists|j: int| 0 <= j < k && #[trigger] s[j].event_id() == x && s[j] is Return
}

/// What the first pass has learnt after `k` events: they pair up so far,
/// `seen` records each id met (1 for its call, 2 once its return came), and
/// every return came after an event with its id.
pub open spec fn first_pass<M: EventModel>(s: Seq<Event<M>>, k: int, seen: Map<usize, u8>) -> bool {
    &&& paired_below(s, k)
    &&& forall|x: usize| #[trigger] seen.contains_key(x) <==> id_below(s, k, x)
    &&& forall|x: usize|
        #[trigger] seen.contains_key(x) ==> (seen[x] == 1 || seen[x] == 2) && (seen[x] == 2
            <==> return_below(s, k, x))
    &&& forall|j: int| 0 <= j < k && #[trigger] s[j] is Return ==> id_below(s, j, s[j].event_id())
}

/// A call whose id is new keeps the first pass going.
proof fn lemma_first_pass_call<M: EventModel>(s: Seq<Event<M>>, k: int, seen: Map<usize, u8>)
    requires
        0 <= k < s.len(),
        first_pass(s, k, seen),
        s[k] is Call,
        !seen.contains_key(s[k].event_id()),
    ensures
        first_pass(s, k + 1, seen.insert(s[k].event_id(), 1)),
{
    let x0 = s[k].event_id();
    let post = seen.insert(x0, 1);
    assert forall|a: int, b: int|
        0 <= a < b < k + 1 && (#[trigger] s[a]).event_id() == (#[trigger] s[b]).event_id() implies s[a] is Call
            && s[b] is Return by {
        if b == k {
            assert(id_below(s, k, x0));
        }
    }
    assert forall|x: usize| #[trigger] post.contains_key(x) <==> id_below(s, k + 1, x) by {
        if x == x0 {
            assert(s[k].event_id() == x);
        } else if id_below(s, k + 1, x) {
            let j = choose|j: int| 0 <= j < k + 1 && #[trigger] s[j].event_id() == x;
            assert(j < k);
        } else if id_below(s, k, x) {
            let j = choose|j: int| 0 <= j < k && #[trigger] s[j].event_id() == x;
            assert(0 <= j < k + 1);
        }
    }
    assert forall|x: usize| #[trigger] post.contains_key(x) implies (post[x] == 1 || post[x] == 2) && (
    post[x] == 2 <==> return_below(s, k + 1, x)) by {
        if return_below(s, k + 1, x) {
            let j = choose|j: int| 0 <= j < k + 1 && #[trigger] s[j].event_id() == x && s[j] is Return;
            assert(j < k);
            assert(return_below(s, k, x));
            assert(id_below(s, k, x));
        }
        if x != x0 && return_below(s, k, x) {
            let j = choose|j: int| 0 <= j < k && #[trigger] s[j].event_id() == x && s[j] is Return;
            assert(0 <= j < k + 1);
        }
    }
}

/// A return whose call was met, and whose return was not, keeps the first
/// pass going.
proof fn lemma_first_pass_return<M: EventModel>(s: Seq<Event<M>>, k: int, seen: Map<usize, u8>)
    requires
        0 <= k < s.len(),
        first_pass(s, k, seen),
        s[k] is Return,
        seen.contains_key(s[k].event_id()),
        seen[s[k].event_id()] == 1,
    ensures
        first_pass(s, k + 1, seen.insert(s[k].event_id(), 2)),
{
    let x0 = s[k].event_id();
    let post = seen.insert(x0, 2);
    assert forall|a: int, b: int|
        0 <= a < b < k + 1 && (#[trigger] s[a]).event_id() == (#[trigger] s[b]).event_id() implies s[a] is Call
            && s[b] is Return by {
        if b == k && s[a] is Return {
            assert(return_below(s, k, x0));
        }
    }
    assert forall|x: usize| #[trigger] post.contains_key(x) <==> id_below(s, k + 1, x) by {
        if x == x0 {
            assert(s[k].event_id() == x);
        } else if id_below(s, k + 1, x) {
            let j = choose|j: int| 0 <= j < k + 1 && #[trigger] s[j].event_id() == x;
            assert(j < k);
        } else if id_below(s, k, x) {
            let j = choose|j: int| 0 <= j < k && #[trigger] s[j].event_id() == x;
            assert(0 <= j < k + 1);
        }
    }
    assert forall|x: usize| #[trigger] post.contains_key(x) implies (post[x] == 1 || post[x] == 2) && (
    post[x] == 2 <==> return_below(s, k + 1, x)) by {
        if x == x0 {
            assert(s[k].event_id() == x && s[k] is Return);
            assert(0 <= k < k + 1);
        } else {
            if return_below(s, k + 1, x) {
                let j = choose|j: int| 0 <= j < k + 1 && #[trigger] s[j].event_id() == x && s[j] is Return;
                assert(j < k);
                assert(return_below(s, k, x));
            }
            if return_below(s, k, x) {
                let j = choose|j: int| 0 <= j < k && #[trigger] s[j].event_id() == x && s[j] is Return;
                assert(0 <= j < k + 1);
            }
        }
    }
    assert(id_below(s, k, x0));
}

/// The first pass over every event, recording which ids met their calls and
/// returns; `None` when the events cannot pair up.
fn first_pass_ids<M: EventModel>(evs: &Vec<Event<M>>) -> (r: Option<HashMap<usize, u8>>)
    ensures
        r is None ==> !events_paired(evs@),
        r matches Some(seen) ==> first_pass(evs@, evs@.len() as int, seen@),
{
    let ghost s = evs@;
    let n = evs.len();
    let mut seen: HashMap<usize, u8> = HashMap::new();
    let mut k: usize = 0;
    while k < n
        invariant
            n == s.len(),
            evs@ == s,
            k <= n,
            first_pass(s, k as int, seen@),
        decreases n - k,
    {
        match &evs[k] {
            Event::Call { id, .. } => {
                if seen.contains_key(id) {
                    proof {
                        let j = choose|j: int| 0 <= j < k && #[trigger] s[j].event_id() == *id;
                        assert(s[j].event_id() == s[k as int].event_id());
                    }
                    return None;
                }
                proof {
                    lemma_first_pass_call(s, k as int, seen@);
                }
                seen.insert(*id, 1);
            },
            Event::Return { id, .. } => {
                match seen.get(id) {
                    Some(state) => {
                        if *state != 1 {
                            proof {
                                let j = choose|j: int|
                                    0 <= j < k && #[trigger] s[j].event_id() == *id && s[j] is Return;
                                assert(s[j].event_id() == s[k as int].event_id());
                            }
                            return None;
                        }
                    },
                    None => {
                        proof {
                            if events_paired(s) {
                                assert(has_partner(s, k as int));
                                let b = choose|b: int|
                                    0 <= b < s.len() && b != k && (#[trigger] s[b]).event_id() == s[k as int].event_id();
                                if b < k {
                                    assert(id_below(s, k as int, *id));
                                } else {
                                    assert(s[k as int] is Call);
                                }
                            }
                        }
                        return None;
                    },
                }
                proof {
                    lemma_first_pass_return(s, k as int, seen@);
                }
                seen.insert(*id, 2);
            },
        }
        k = k + 1;
    }
    Some(seen)
}

/// After the first pass, a return has its call as partner, and a call has
/// one exactly when its return was met.
proof fn lemma_second_pass<M: EventModel>(s: Seq<Event<M>>, seen: Map<usize, u8>, k: int)
    requires
        first_pass(s, s.len() as int, seen),
        0 <= k < s.len(),
    ensures
        seen.contains_key(s[k].event_id()),
        s[k] is Return ==> has_partner(s, k),
        s[k] is Call ==> (has_partner(s, k) <==> seen[s[k].event_id()] == 2),
{
    let n = s.len() as int;
    let x = s[k].event_id();
    assert(id_below(s, n, x));
    assert(seen.contains_key(x));
    if s[k] is Return {
        assert(id_below(s, k, x));
        let i = choose|i: int| 0 <= i < k && #[trigger] s[i].event_id() == x;
        assert(i != k && s[i].event_id() == x);
    } else {
        if seen[x] == 2 {
            let j = choose|j: int| 0 <= j < n && #[trigger] s[j].event_id() == x && s[j] is Return;
            assert(j != k && s[j].event_id() == x);
        }
        if has_partner(s, k) {
            let b = choose|b: int| 0 <= b < s.len() && b != k && (#[trigger] s[b]).event_id() == x;
            if b < k {
                assert(s[k] is Return);
            } else {
                assert(s[b] is Return);
                assert(return_below(s, n, x));
            }
        }
    }
}

/// Whether every call is followed by exactly one return with its id, and
/// every return follows its call.
pub fn events_are_paired<M: EventModel>(evs: &Vec<Event<M>>) -> (r: bool)
    ensures
        r == events_paired(evs@),
{
    let ghost s = evs@;
    let n = evs.len();
    let seen = match first_pass_ids(evs) {
        Some(seen) => seen,
        None => {
            return false;
        },
    };
    // Every call must have met its return.
    let mut k: usize = 0;
    while k < n
        invariant
            n == s.len(),
            evs@ == s,
            k <= n,
            first_pass(s, n as int, seen@),
            forall|a: int| 0 <= a < k ==> #[trigger] has_partner(s, a),
        decreases n - k,
    {
        proof {
            lemma_second_pass(s, seen@, k as int);
        }
        match &evs[k] {
            Event::Call { id, .. } => {
                match seen.get(id) {
                    Some(state) => {
                        if *state != 2 {
                            proof {
                                assert(!has_partner(s, k as int));
                            }
                            return false;
                        }
                    },
                    None => {},
                }
            },
            Event::Return { .. } => {},
        }
        k = k + 1;
    }
    proof {
        assert(paired_below(s, s.len() as int));
    }
    true
}

} // verus!
