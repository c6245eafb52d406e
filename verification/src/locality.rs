//! Locality of the key-by-key check: a history over several keys, each key
//! an independent register, can be linearized as a whole exactly when the
//! entries on each key can, provided every entry returns strictly after it
//! is called.
use crate::wing_gong::{
    groups_of, has_group, key_is, on_key, ret_matches, wg_linearizable, wg_minimal, CheckResult, Entry,
    Model,
};
use vstd::prelude::*;

verus! {

// ---------------------------------------------------------------------------
// Positions in a filtered sequence
// ---------------------------------------------------------------------------

/// How many elements before position `i` of `s` satisfy `p`: the position
/// that `s[i]` takes in `s.filter(p)` when it satisfies `p`.
pub open spec fn rank<A>(s: Seq<A>, p: spec_fn(A) -> bool, i: int) -> int {
    s.take(i).filter(p).len() as int
}

/// Filtering one more element of the prefix.
proof fn lemma_filter_take_step<A>(s: Seq<A>, p: spec_fn(A) -> bool, i: int)
    requires
        0 <= i < s.len(),
    ensures
        s.take(i + 1).filter(p) == if p(s[i]) {
            s.take(i).filter(p).push(s[i])
        } else {
            s.take(i).filter(p)
        },
{
    assert(s.take(i + 1) =~= s.take(i).push(s[i]));
    s.take(i).lemma_filter_push(s[i], p);
}

/// The filtered sequence is the filtered prefix up to `i`, then the
/// filtered rest.
proof fn lemma_filter_split<A>(s: Seq<A>, p: spec_fn(A) -> bool, i: int)
    requires
        0 <= i <= s.len(),
    ensures
        s.filter(p) == s.take(i).filter(p) + s.skip(i).filter(p),
{
    assert(s =~= s.take(i) + s.skip(i));
    Seq::filter_distributes_over_add(s.take(i), s.skip(i), p);
}

/// An element that satisfies `p` stands at its rank in the filtered
/// sequence.
pub proof fn lemma_at_rank<A>(s: Seq<A>, p: spec_fn(A) -> bool, i: int)
    requires
        0 <= i < s.len(),
        p(s[i]),
    ensures
        0 <= rank(s, p, i) < s.filter(p).len(),
        s.filter(p)[rank(s, p, i)] == s[i],
{
    lemma_filter_take_step(s, p, i);
    lemma_filter_split(s, p, i + 1);
}

/// Removing position `i` removes the element at its rank from the
/// filtered sequence, when it satisfies `p`, and nothing otherwise.
pub proof fn lemma_filter_remove<A>(s: Seq<A>, p: spec_fn(A) -> bool, i: int)
    requires
        0 <= i < s.len(),
    ensures
        s.remove(i).filter(p) == if p(s[i]) {
            s.filter(p).remove(rank(s, p, i))
        } else {
            s.filter(p)
        },
{
    let a = s.take(i).filter(p);
    let b = s.skip(i + 1).filter(p);
    assert(s.remove(i) =~= s.take(i) + s.skip(i + 1));
    Seq::filter_distributes_over_add(s.take(i), s.skip(i + 1), p);
    lemma_filter_take_step(s, p, i);
    lemma_filter_split(s, p, i + 1);
    if p(s[i]) {
        assert((a.push(s[i]) + b).remove(a.len() as int) =~= a + b);
    }
}

/// Ranks grow past every element that satisfies `p`.
proof fn lemma_rank_grows<A>(s: Seq<A>, p: spec_fn(A) -> bool, i1: int, i2: int)
    requires
        0 <= i1 < i2 <= s.len(),
        p(s[i1]),
    ensures
        rank(s, p, i1) < rank(s, p, i2),
    decreases i2 - i1,
{
    lemma_filter_take_step(s, p, i2 - 1);
    if i2 - 1 > i1 {
        lemma_rank_grows(s, p, i1, i2 - 1);
    }
}

/// Two elements that satisfy `p` and have the same rank are at the same
/// position.
pub proof fn lemma_rank_injective<A>(s: Seq<A>, p: spec_fn(A) -> bool, i1: int, i2: int)
    requires
        0 <= i1 < s.len(),
        0 <= i2 < s.len(),
        p(s[i1]),
        p(s[i2]),
        rank(s, p, i1) == rank(s, p, i2),
    ensures
        i1 == i2,
{
    if i1 < i2 {
        lemma_rank_grows(s, p, i1, i2);
    } else if i2 < i1 {
        lemma_rank_grows(s, p, i2, i1);
    }
}

/// The position in `s.take(m)` of the element at `j` in its filtered
/// prefix.
proof fn lemma_position_below<A>(s: Seq<A>, p: spec_fn(A) -> bool, m: int, j: int) -> (i: int)
    requires
        0 <= m <= s.len(),
        0 <= j < s.take(m).filter(p).len(),
    ensures
        0 <= i < m,
        p(s[i]),
        rank(s, p, i) == j,
    decreases m,
{
    lemma_filter_take_step(s, p, m - 1);
    if j < s.take(m - 1).filter(p).len() {
        lemma_position_below(s, p, m - 1, j)
    } else {
        m - 1
    }
}

/// Every element of the filtered sequence comes from a position of `s`
/// whose rank is its index.
pub proof fn lemma_position<A>(s: Seq<A>, p: spec_fn(A) -> bool, j: int) -> (i: int)
    requires
        0 <= j < s.filter(p).len(),
    ensures
        0 <= i < s.len(),
        p(s[i]),
        rank(s, p, i) == j,
        s.filter(p)[j] == s[i],
{
    assert(s.take(s.len() as int) =~= s);
    let i = lemma_position_below(s, p, s.len() as int, j);
    lemma_at_rank(s, p, i);
    i
}

// ---------------------------------------------------------------------------
// A history over several keys
// ---------------------------------------------------------------------------

/// Every key starts from the model's initial state.
pub open spec fn initial_states<M: Model>() -> spec_fn(Seq<char>) -> M::State {
    |k: Seq<char>| M::init_spec()
}

/// `states` with the state of `key` replaced by `s`.
pub open spec fn with_state<M: Model>(
    states: spec_fn(Seq<char>) -> M::State,
    key: Seq<char>,
    s: M::State,
) -> spec_fn(Seq<char>) -> M::State {
    |k: Seq<char>|
        if k == key {
            s
        } else {
            states(k)
        }
}

/// The entries `ops`, over keys whose states are `states`, can be
/// linearized as one history: some entry that no other finished before
/// returns what the model says on its key, and the rest can be linearized
/// from the states after it.
pub open spec fn keyed_linearizable<M: Model>(
    ops: Seq<Entry<M>>,
    states: spec_fn(Seq<char>) -> M::State,
) -> bool
    decreases ops.len(),
{
    if ops.len() == 0 {
        true
    } else {
        exists|i: int|
            0 <= i < ops.len() && #[trigger] wg_minimal(ops, i) && ret_matches(
                ops[i],
                M::step_spec(states(ops[i].key@), ops[i].op).1,
            ) && keyed_linearizable(
                ops.remove(i),
                with_state::<M>(
                    states,
                    ops[i].key@,
                    M::step_spec(states(ops[i].key@), ops[i].op).0,
                ),
            )
    }
}

/// Every entry returns strictly after it is called.
pub open spec fn returns_after_call<M: Model>(ops: Seq<Entry<M>>) -> bool {
    forall|i: int| 0 <= i < ops.len() ==> (#[trigger] ops[i]).call_time < ops[i].ret_time
}

/// An entry that may be linearized next in the whole history may be
/// linearized next among the entries of its key.
proof fn lemma_minimal_on_key<M: Model>(ops: Seq<Entry<M>>, i: int)
    requires
        0 <= i < ops.len(),
        wg_minimal(ops, i),
    ensures
        wg_minimal(on_key(ops, ops[i].key@), rank(ops, key_is::<M>(ops[i].key@), i)),
{
    let p = key_is::<M>(ops[i].key@);
    let f = ops.filter(p);
    let j = rank(ops, p, i);
    lemma_at_rank(ops, p, i);
    assert forall|t: int| 0 <= t < f.len() && t != j implies !(#[trigger] f[t].ret_time <= f[j].call_time) by {
        let i2 = lemma_position(ops, p, t);
        assert(i2 != i);
        assert(!(ops[i2].ret_time <= ops[i].call_time));
    }
}

/// A history linearized as a whole is linearized on each key.
proof fn lemma_whole_to_keys<M: Model>(ops: Seq<Entry<M>>, states: spec_fn(Seq<char>) -> M::State)
    requires
        keyed_linearizable(ops, states),
    ensures
        forall|k: Seq<char>| #[trigger] wg_linearizable(on_key(ops, k), states(k)),
    decreases ops.len(),
{
    if ops.len() == 0 {
        assert forall|k: Seq<char>| #[trigger] wg_linearizable(on_key(ops, k), states(k)) by {
            ops.lemma_filter_len(key_is::<M>(k));
        }
    } else {
        let i = choose|i: int|
            0 <= i < ops.len() && #[trigger] wg_minimal(ops, i) && ret_matches(
                ops[i],
                M::step_spec(states(ops[i].key@), ops[i].op).1,
            ) && keyed_linearizable(
                ops.remove(i),
                with_state::<M>(
                    states,
                    ops[i].key@,
                    M::step_spec(states(ops[i].key@), ops[i].op).0,
                ),
            );
        let k0 = ops[i].key@;
        let next = M::step_spec(states(k0), ops[i].op);
        let later = with_state::<M>(states, k0, next.0);
        lemma_whole_to_keys(ops.remove(i), later);
        assert forall|k: Seq<char>| #[trigger] wg_linearizable(on_key(ops, k), states(k)) by {
            let p = key_is::<M>(k);
            lemma_filter_remove(ops, p, i);
            assert(wg_linearizable(on_key(ops.remove(i), k), later(k)));
            if k == k0 {
                let f = on_key(ops, k);
                let j = rank(ops, p, i);
                lemma_at_rank(ops, p, i);
                lemma_minimal_on_key(ops, i);
                assert(f[j] == ops[i]);
                assert(wg_minimal(f, j) && ret_matches(f[j], M::step_spec(states(k), f[j].op).1)
                    && wg_linearizable(f.remove(j), M::step_spec(states(k), f[j].op).0));
            } else {
                assert(later(k) == states(k));
            }
        }
    }
}

/// Entry `i` may come first among the entries of its key, from the key's
/// state in `states`.
pub open spec fn first_on_key<M: Model>(
    ops: Seq<Entry<M>>,
    states: spec_fn(Seq<char>) -> M::State,
    i: int,
) -> bool {
    let k = ops[i].key@;
    let f = on_key(ops, k);
    let j = rank(ops, key_is::<M>(k), i);
    let next = M::step_spec(states(k), ops[i].op);
    &&& 0 <= i < ops.len()
    &&& wg_minimal(f, j)
    &&& ret_matches(ops[i], next.1)
    &&& wg_linearizable(f.remove(j), next.0)
}

/// Among the positions below `n` that satisfy `pick`, one whose entry is
/// called first.
proof fn lemma_called_first<M: Model>(ops: Seq<Entry<M>>, pick: spec_fn(int) -> bool, n: int) -> (i: int)
    requires
        0 < n <= ops.len(),
        exists|i: int| 0 <= i < n && #[trigger] pick(i),
    ensures
        0 <= i < n,
        pick(i),
        forall|i2: int| 0 <= i2 < n && #[trigger] pick(i2) ==> ops[i].call_time <= ops[i2].call_time,
    decreases n,
{
    if exists|i: int| 0 <= i < n - 1 && #[trigger] pick(i) {
        let i1 = lemma_called_first(ops, pick, n - 1);
        if pick(n - 1) && ops[n - 1].call_time < ops[i1].call_time {
            n - 1
        } else {
            i1
        }
    } else {
        n - 1
    }
}

/// When the entries of a key can be linearized, some entry of the key may
/// come first.
proof fn lemma_key_has_first<M: Model>(
    ops: Seq<Entry<M>>,
    states: spec_fn(Seq<char>) -> M::State,
    i0: int,
) -> (i: int)
    requires
        0 <= i0 < ops.len(),
        wg_linearizable(on_key(ops, ops[i0].key@), states(ops[i0].key@)),
    ensures
        first_on_key(ops, states, i),
        ops[i].key@ == ops[i0].key@,
{
    let k = ops[i0].key@;
    let p = key_is::<M>(k);
    let f = on_key(ops, k);
    lemma_at_rank(ops, p, i0);
    let st = states(k);
    let j = choose|j: int|
        0 <= j < f.len() && #[trigger] wg_minimal(f, j) && ret_matches(f[j], M::step_spec(st, f[j].op).1)
            && wg_linearizable(f.remove(j), M::step_spec(st, f[j].op).0);
    let i = lemma_position(ops, p, j);
    i
}

/// A history linearized on each key is linearized as a whole, when every
/// entry returns strictly after it is called.
proof fn lemma_keys_to_whole<M: Model>(ops: Seq<Entry<M>>, states: spec_fn(Seq<char>) -> M::State)
    requires
        returns_after_call(ops),
        forall|k: Seq<char>| #[trigger] wg_linearizable(on_key(ops, k), states(k)),
    ensures
        keyed_linearizable(ops, states),
    decreases ops.len(),
{
    if ops.len() > 0 {
        let pick = |i: int| first_on_key(ops, states, i);
        assert(wg_linearizable(on_key(ops, ops[0].key@), states(ops[0].key@)));
        let i0 = lemma_key_has_first(ops, states, 0);
        assert(pick(i0));
        let i = lemma_called_first(ops, pick, ops.len() as int);
        assert forall|i2: int| 0 <= i2 < ops.len() && i2 != i implies !(#[trigger] ops[i2].ret_time
            <= ops[i].call_time) by {
            if ops[i2].ret_time <= ops[i].call_time {
                let k2 = ops[i2].key@;
                let p2 = key_is::<M>(k2);
                let f2 = on_key(ops, k2);
                let t2 = rank(ops, p2, i2);
                lemma_at_rank(ops, p2, i2);
                assert(wg_linearizable(on_key(ops, k2), states(k2)));
                let i3 = lemma_key_has_first(ops, states, i2);
                assert(pick(i3));
                let j3 = rank(ops, p2, i3);
                lemma_at_rank(ops, p2, i3);
                assert(ops[i].call_time <= ops[i3].call_time);
                if t2 != j3 {
                    assert(!(f2[t2].ret_time <= f2[j3].call_time));
                } else {
                    lemma_rank_injective(ops, p2, i2, i3);
                    assert(ops[i2].call_time < ops[i2].ret_time);
                }
            }
        }
        let k = ops[i].key@;
        let p = key_is::<M>(k);
        let next = M::step_spec(states(k), ops[i].op);
        let later = with_state::<M>(states, k, next.0);
        let rest = ops.remove(i);
        assert forall|k2: Seq<char>| #[trigger] wg_linearizable(on_key(rest, k2), later(k2)) by {
            lemma_filter_remove(ops, key_is::<M>(k2), i);
            if k2 != k {
                assert(wg_linearizable(on_key(ops, k2), states(k2)));
            }
        }
        assert(returns_after_call(rest)) by {
            assert forall|x: int| 0 <= x < rest.len() implies (#[trigger] rest[x]).call_time
                < rest[x].ret_time by {
                if x < i {
                    assert(rest[x] == ops[x]);
                } else {
                    assert(rest[x] == ops[x + 1]);
                }
            }
        }
        lemma_keys_to_whole(rest, later);
        assert(wg_minimal(ops, i));
    }
}

/// A history over several keys, each key starting from the model's
/// initial state, can be linearized as a whole exactly when the entries on
/// each key can be, on their own: so the key-by-key check decides the
/// whole history.  This needs every entry to return strictly after it is
/// called; two entries on different keys that both begin and end at the
/// same instant each finish no later than the other starts, so neither may
/// come first in the whole history, though each may on its own key.
pub proof fn lemma_key_locality<M: Model>(ops: Seq<Entry<M>>)
    requires
        returns_after_call(ops),
    ensures
        keyed_linearizable(ops, initial_states::<M>()) <==> forall|k: Seq<char>|
            #[trigger] wg_linearizable(on_key(ops, k), M::init_spec()),
{
    let init = initial_states::<M>();
    if keyed_linearizable(ops, init) {
        lemma_whole_to_keys(ops, init);
        assert forall|k: Seq<char>| #[trigger] wg_linearizable(on_key(ops, k), M::init_spec()) by {
            assert(wg_linearizable(on_key(ops, k), init(k)));
        }
    }
    if forall|k: Seq<char>| #[trigger] wg_linearizable(on_key(ops, k), M::init_spec()) {
        assert forall|k: Seq<char>| #[trigger] wg_linearizable(on_key(ops, k), init(k)) by {
            assert(wg_linearizable(on_key(ops, k), M::init_spec()));
        }
        lemma_keys_to_whole(ops, init);
    }
}

/// The verdicts on the groups of a history, one per key as `partition`
/// makes them, are all `Linearizable` exactly when the history can be
/// linearized as a whole, each key starting from the model's initial state
/// (when every entry returns strictly after it is called): no key's
/// violation is missed, and none is reported where there is none.
pub proof fn lemma_verdict_by_keys<M: Model>(
    history: Seq<Entry<M>>,
    groups: Seq<(String, Vec<Entry<M>>)>,
    results: Seq<(String, CheckResult)>,
)
    requires
        returns_after_call(history),
        groups_of(history, groups),
        results.len() == groups.len(),
        forall|g: int|
            0 <= g < groups.len() ==> ((#[trigger] results[g]).1 is Linearizable <==> wg_linearizable(
                groups[g].1@,
                M::init_spec(),
            )),
    ensures
        (forall|g: int| 0 <= g < results.len() ==> (#[trigger] results[g]).1 is Linearizable)
            <==> keyed_linearizable(history, initial_states::<M>()),
{
    lemma_key_locality(history);
    if forall|g: int| 0 <= g < results.len() ==> (#[trigger] results[g]).1 is Linearizable {
        assert forall|k: Seq<char>| #[trigger] wg_linearizable(on_key(history, k), M::init_spec()) by {
            let p = key_is::<M>(k);
            if history.filter(p).len() > 0 {
                let i = lemma_position(history, p, 0);
                assert(has_group(groups, history[i].key@));
                let g = choose|g: int| 0 <= g < groups.len() && (#[trigger] groups[g]).0@ == history[i].key@;
                assert(results[g].1 is Linearizable);
            } else {
                assert(history.filter(p) =~= Seq::<Entry<M>>::empty());
            }
        }
    }
    if keyed_linearizable(history, initial_states::<M>()) {
        assert forall|g: int| 0 <= g < results.len() implies (#[trigger] results[g]).1 is Linearizable by {
            assert(wg_linearizable(on_key(history, groups[g].0@), M::init_spec()));
        }
    }
}

} // verus!
