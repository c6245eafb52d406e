//! What it means for a history of operations to be linearizable.
//!
//! Operation `j` precedes operation `i` in real time when `j` returned
//! before `i` was called.  A linearization is an order of all operations
//! that never puts an operation before one that precedes it, and along which
//! the model accepts every operation, starting from its initial state.
use crate::model::{Model, Operation};
use vstd::prelude::*;

verus! {

/// Operation `j` returned before operation `i` was invoked.
pub open spec fn precedes<M: Model>(ops: Seq<Operation<M>>, j: int, i: int) -> bool {
    ops[j].return_time < ops[i].call_time
}

/// No operation outside `done` precedes `c`: `c` may be linearized next.
pub open spec fn is_minimal<M: Model>(ops: Seq<Operation<M>>, done: Set<int>, c: int) -> bool {
    forall|j: int| 0 <= j < ops.len() && !done.contains(j) ==> !#[trigger] precedes(ops, j, c)
}

/// Every operation is in `done`.
pub open spec fn all_done<M: Model>(ops: Seq<Operation<M>>, done: Set<int>) -> bool {
    forall|j: int| 0 <= j < ops.len() ==> #[trigger] done.contains(j)
}

/// After the operations in `done` have taken effect, leaving the model in
/// `state`, `order` lists the remaining operations in an order that respects
/// real time and that the model accepts.
pub open spec fn completes<M: Model>(
    ops: Seq<Operation<M>>,
    done: Set<int>,
    state: M::State,
    order: Seq<int>,
) -> bool
    decreases order.len(),
{
    if order.len() == 0 {
        all_done(ops, done)
    } else {
        let c = order[0];
        let (ok, next) = M::step_spec(state, ops[c].op);
        &&& 0 <= c < ops.len()
        &&& !done.contains(c)
        &&& is_minimal(ops, done, c)
        &&& ok
        &&& completes(ops, done.insert(c), next, order.drop_first())
    }
}

/// Some order completes the history from `done` and `state`.
pub open spec fn extendable<M: Model>(ops: Seq<Operation<M>>, done: Set<int>, state: M::State) -> bool {
    exists|order: Seq<int>| completes(ops, done, state, order)
}

/// `order` is a linearization of `ops`.
pub open spec fn is_linearization<M: Model>(ops: Seq<Operation<M>>, order: Seq<int>) -> bool {
    completes(ops, Set::empty(), M::init_spec(), order)
}

/// The history `ops` is linearizable.
pub open spec fn linearizable<M: Model>(ops: Seq<Operation<M>>) -> bool {
    extendable(ops, Set::empty(), M::init_spec())
}

/// Trying `c` next from `done` and `state` cannot lead to a complete
/// linearization: the model refuses `c`, or nothing completes after it.
pub open spec fn dead_end<M: Model>(ops: Seq<Operation<M>>, done: Set<int>, state: M::State, c: int) -> bool {
    let (ok, next) = M::step_spec(state, ops[c].op);
    !ok || !extendable(ops, done.insert(c), next)
}

/// When every operation that may be linearized next is a dead end, and not
/// every operation is done, the history cannot be completed.
pub proof fn lemma_all_dead_ends<M: Model>(ops: Seq<Operation<M>>, done: Set<int>, state: M::State)
    requires
        !all_done(ops, done),
        forall|c: int|
            0 <= c < ops.len() && !done.contains(c) && #[trigger] is_minimal(ops, done, c)
                ==> dead_end(ops, done, state, c),
    ensures
        !extendable(ops, done, state),
{
    if extendable(ops, done, state) {
        let order = choose|order: Seq<int>| completes(ops, done, state, order);
        let c = order[0];
        assert(is_minimal(ops, done, c));
        let (ok, next) = M::step_spec(state, ops[c].op);
        assert(completes(ops, done.insert(c), next, order.drop_first()));
        assert(extendable(ops, done.insert(c), next));
    }
}

/// Along `order`, starting after `done` in `state`, every operation is new,
/// may be linearized next, and is accepted: a partial linearization.
pub open spec fn runs<M: Model>(
    ops: Seq<Operation<M>>,
    done: Set<int>,
    state: M::State,
    order: Seq<int>,
) -> bool
    decreases order.len(),
{
    if order.len() == 0 {
        true
    } else {
        let c = order[0];
        let (ok, next) = M::step_spec(state, ops[c].op);
        &&& 0 <= c < ops.len()
        &&& !done.contains(c)
        &&& is_minimal(ops, done, c)
        &&& ok
        &&& runs(ops, done.insert(c), next, order.drop_first())
    }
}

/// `order` is a partial linearization of `ops`: a prefix of some order that
/// respects real time and that the model accepts.
pub open spec fn is_partial_linearization<M: Model>(ops: Seq<Operation<M>>, order: Seq<int>) -> bool {
    runs(ops, Set::empty(), M::init_spec(), order)
}

/// The elements of the first `k` entries of `order`.
pub open spec fn prefix_set(order: Seq<int>, k: int) -> Set<int> {
    Set::new(|x: int| exists|j: int| 0 <= j < k && order[j] == x)
}

pub proof fn lemma_prefix_set_step(order: Seq<int>, k: int)
    requires
        0 <= k < order.len(),
    ensures
        prefix_set(order, k + 1) == prefix_set(order, k).insert(order[k]),
{
    assert(prefix_set(order, k + 1) =~= prefix_set(order, k).insert(order[k]));
}

/// The facts that hold at each step of a search path: at step `k` the
/// operation `order[k]` is new, may be linearized next, and takes the model
/// from `states[k]` to `states[k + 1]`.
pub open spec fn path_steps<M: Model>(ops: Seq<Operation<M>>, order: Seq<int>, states: Seq<M::State>) -> bool {
    &&& states.len() == order.len() + 1
    &&& forall|k: int|
        0 <= k < order.len() ==> {
            &&& 0 <= #[trigger] order[k] < ops.len()
            &&& !prefix_set(order, k).contains(order[k])
            &&& is_minimal(ops, prefix_set(order, k), order[k])
            &&& M::step_spec(states[k], ops[order[k]].op) == (true, states[k + 1])
        }
}

/// A search path is a partial linearization from each of its steps on.
pub proof fn lemma_path_runs<M: Model>(
    ops: Seq<Operation<M>>,
    order: Seq<int>,
    states: Seq<M::State>,
    k: int,
)
    requires
        path_steps(ops, order, states),
        0 <= k <= order.len(),
    ensures
        runs(ops, prefix_set(order, k), states[k], order.skip(k)),
    decreases order.len() - k,
{
    if k < order.len() {
        lemma_path_runs(ops, order, states, k + 1);
        lemma_prefix_set_step(order, k);
        assert(order.skip(k)[0] == order[k]);
        assert(order.skip(k).drop_first() =~= order.skip(k + 1));
    }
}

/// A search path that has done every operation is a linearization from each
/// of its steps on.
pub proof fn lemma_path_completes<M: Model>(
    ops: Seq<Operation<M>>,
    order: Seq<int>,
    states: Seq<M::State>,
    k: int,
)
    requires
        path_steps(ops, order, states),
        all_done(ops, prefix_set(order, order.len() as int)),
        0 <= k <= order.len(),
    ensures
        completes(ops, prefix_set(order, k), states[k], order.skip(k)),
    decreases order.len() - k,
{
    if k < order.len() {
        lemma_path_completes(ops, order, states, k + 1);
        lemma_prefix_set_step(order, k);
        assert(order.skip(k)[0] == order[k]);
        assert(order.skip(k).drop_first() =~= order.skip(k + 1));
    } else {
        assert(order.skip(k).len() == 0);
    }
}

/// The empty prefix has no elements.
pub proof fn lemma_prefix_set_empty(order: Seq<int>)
    ensures
        prefix_set(order, 0) == Set::<int>::empty(),
{
    assert(prefix_set(order, 0) =~= Set::<int>::empty());
}

/// The first `k` entries of an order without repetitions are `k` elements.
pub proof fn lemma_prefix_set_len(order: Seq<int>, k: int)
    requires
        0 <= k <= order.len(),
        forall|j: int| 0 <= j < order.len() ==> !#[trigger] prefix_set(order, j).contains(order[j]),
    ensures
        prefix_set(order, k).finite(),
        prefix_set(order, k).len() == k,
    decreases k,
{
    if k == 0 {
        lemma_prefix_set_empty(order);
    } else {
        lemma_prefix_set_len(order, k - 1);
        lemma_prefix_set_step(order, k - 1);
        assert(!prefix_set(order, k - 1).contains(order[k - 1]));
    }
}

/// A finite set of operation indices below `m` has at most `m` elements.
pub proof fn lemma_indices_len(s: Set<int>, m: int)
    requires
        s.finite(),
        0 <= m,
        forall|x: int| s.contains(x) ==> 0 <= x < m,
    ensures
        s.len() <= m,
{
    vstd::set_lib::lemma_int_range(0, m);
    assert(s.subset_of(vstd::set_lib::set_int_range(0, m)));
    vstd::set_lib::lemma_len_subset(s, vstd::set_lib::set_int_range(0, m));
}

/// Orders that agree on their first `k` entries have the same prefix set.
pub proof fn lemma_prefix_set_agree(o1: Seq<int>, o2: Seq<int>, k: int)
    requires
        0 <= k <= o1.len(),
        k <= o2.len(),
        forall|j: int| 0 <= j < k ==> o1[j] == o2[j],
    ensures
        prefix_set(o1, k) == prefix_set(o2, k),
{
    assert forall|x: int| prefix_set(o1, k).contains(x) <==> prefix_set(o2, k).contains(x) by {
        if prefix_set(o1, k).contains(x) {
            let j = choose|j: int| 0 <= j < k && o1[j] == x;
            assert(o2[j] == x);
        }
        if prefix_set(o2, k).contains(x) {
            let j = choose|j: int| 0 <= j < k && o2[j] == x;
            assert(o1[j] == x);
        }
    }
    assert(prefix_set(o1, k) =~= prefix_set(o2, k));
}

} // verus!
