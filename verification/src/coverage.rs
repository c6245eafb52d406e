//! What the recorded sequences of a search cover: for each operation, a
//! recorded sequence that holds it and is as long as any partial
//! linearization that holds it.
use crate::history::{is_minimal, is_partial_linearization, lemma_indices_len, runs};
use crate::linearizer::{Linearizer, LongestTable};
use crate::model::{Model, Operation};
use vstd::prelude::*;

verus! {

/// Operation `x` has a recorded sequence that holds it and is at least
/// `len` long.
pub open spec fn records(t: LongestTable, x: int, len: int) -> bool {
    &&& 0 <= x < t.slots@.len()
    &&& t.slots@[x] is Some
    &&& (t.slots@[x]->0 as int) < t.seqs@.len()
    &&& t.seqs@[t.slots@[x]->0 as int]@.len() >= len
    &&& t.seqs@[t.slots@[x]->0 as int]@.contains(x as usize)
}

/// Every slot names a recorded sequence that holds its operation.
pub open spec fn slots_named(t: LongestTable) -> bool {
    forall|x: int|
        0 <= x < t.slots@.len() && #[trigger] t.slots@[x] is Some ==> (t.slots@[x]->0 as int) < t.seqs@.len()
            && t.seqs@[t.slots@[x]->0 as int]@.contains(x as usize)
}

/// What `t0` records for an operation, `t` records too, in a sequence at
/// least as long.
pub open spec fn grows(t0: LongestTable, t: LongestTable) -> bool {
    forall|x: int, len: int| #[trigger] records(t0, x, len) ==> records(t, x, len)
}

/// From the done operations `done` and the model state `state`, every
/// operation that is done or lies on a run has a recorded sequence as long
/// as the done operations and the run together.
pub open spec fn covered<M: Model>(ops: Seq<Operation<M>>, t: LongestTable, done: Set<int>, state: M::State) -> bool {
    forall|run: Seq<int>|
        #[trigger] runs(ops, done, state, run) ==> forall|x: int|
            #![trigger done.contains(x)]
            #![trigger run.contains(x)]
            done.contains(x) || run.contains(x) ==> records(t, x, (done.len() + run.len()) as int)
}

/// The model refuses call `c` from `state`, or the node it leads to is
/// covered.
pub open spec fn covered_step<M: Model>(
    ops: Seq<Operation<M>>,
    t: LongestTable,
    done: Set<int>,
    state: M::State,
    c: int,
) -> bool {
    let (ok, next) = M::step_spec(state, ops[c].op);
    !ok || covered(ops, t, done.insert(c), next)
}

/// Each operation that lies on a partial linearization of `ops` has a
/// recorded sequence that holds it and is no shorter.
pub open spec fn covers_all<M: Model>(ops: Seq<Operation<M>>, t: LongestTable) -> bool {
    forall|q: Seq<int>, x: int|
        #[trigger] is_partial_linearization(ops, q) && #[trigger] q.contains(x) ==> records(t, x, q.len() as int)
}

/// What a table covers, a table that grows from it covers too.
pub proof fn lemma_covered_grows<M: Model>(
    ops: Seq<Operation<M>>,
    t0: LongestTable,
    t: LongestTable,
    done: Set<int>,
    state: M::State,
)
    requires
        covered(ops, t0, done, state),
        grows(t0, t),
    ensures
        covered(ops, t, done, state),
{
    assert forall|run: Seq<int>| #[trigger] runs(ops, done, state, run) implies forall|x: int|
        #![trigger done.contains(x)]
        #![trigger run.contains(x)]
        done.contains(x) || run.contains(x) ==> records(t, x, (done.len() + run.len()) as int) by {
        assert forall|x: int| done.contains(x) || run.contains(x) implies records(
            t,
            x,
            (done.len() + run.len()) as int,
        ) by {
            assert(records(t0, x, (done.len() + run.len()) as int));
        }
    }
}

/// A step that a table covers, a table that grows from it covers too.
pub proof fn lemma_covered_step_grows<M: Model>(
    ops: Seq<Operation<M>>,
    t0: LongestTable,
    t: LongestTable,
    done: Set<int>,
    state: M::State,
    c: int,
)
    requires
        covered_step(ops, t0, done, state, c),
        grows(t0, t),
    ensures
        covered_step(ops, t, done, state, c),
{
    let (ok, next) = M::step_spec(state, ops[c].op);
    if ok {
        lemma_covered_grows(ops, t0, t, done.insert(c), next);
    }
}

/// A run adds operations that are not done yet, each of `ops`.
pub proof fn lemma_runs_len<M: Model>(ops: Seq<Operation<M>>, done: Set<int>, state: M::State, run: Seq<int>)
    requires
        runs(ops, done, state, run),
        done.finite(),
        forall|x: int| done.contains(x) ==> 0 <= x < ops.len(),
    ensures
        done.len() + run.len() <= ops.len(),
        forall|i: int| 0 <= i < run.len() ==> 0 <= #[trigger] run[i] < ops.len(),
    decreases run.len(),
{
    if run.len() == 0 {
        lemma_indices_len(done, ops.len() as int);
    } else {
        let c = run[0];
        let (ok, next) = M::step_spec(state, ops[c].op);
        let rest = run.drop_first();
        lemma_runs_len(ops, done.insert(c), next, rest);
        assert forall|i: int| 0 <= i < run.len() implies 0 <= #[trigger] run[i] < ops.len() by {
            if i > 0 {
                assert(run[i] == rest[i - 1]);
            }
        }
    }
}

/// When a return heads the active entries, every active call before it is
/// covered, and every done operation has a recorded sequence as long as
/// the stack, the node that the search stands at is covered.
pub proof fn lemma_node_covered<M: Model>(lin: Linearizer<M>, pos: usize, t: LongestTable)
    requires
        lin.inv_shape(),
        lin.act(lin.depth()).contains(pos),
        lin.hist()[pos as int] is Return,
        forall|q: usize|
            #[trigger] lin.act(lin.depth()).contains(q) && q < pos ==> covered_step(
                lin.ops(),
                t,
                lin.done_at(lin.depth()),
                lin.states()[lin.depth()],
                lin.hist()[q as int].index() as int,
            ),
        forall|x: int| #[trigger] lin.done_at(lin.depth()).contains(x) ==> records(t, x, lin.depth()),
    ensures
        covered(lin.ops(), t, lin.done_at(lin.depth()), lin.states()[lin.depth()]),
{
    let d = lin.depth();
    let done = lin.done_at(d);
    let st = lin.states()[d];
    let ops = lin.ops();
    lin.lemma_stack();
    assert(done.finite() && done.len() == d);
    assert forall|run: Seq<int>| #[trigger] runs(ops, done, st, run) implies forall|x: int|
        #![trigger done.contains(x)]
        #![trigger run.contains(x)]
        done.contains(x) || run.contains(x) ==> records(t, x, (done.len() + run.len()) as int) by {
        if run.len() == 0 {
            assert forall|x: int| done.contains(x) || run.contains(x) implies records(
                t,
                x,
                (done.len() + run.len()) as int,
            ) by {
                if run.contains(x) {
                    let i = choose|i: int| 0 <= i < run.len() && run[i] == x;
                }
            }
        } else {
            let c = run[0];
            let (ok, next) = M::step_spec(st, ops[c].op);
            let rest = run.drop_first();
            assert(0 <= c < ops.len() && !done.contains(c) && is_minimal(ops, done, c) && ok && runs(
                ops,
                done.insert(c),
                next,
                rest,
            ));
            lin.lemma_minimal_call_before(pos, c);
            let q = choose|q: usize|
                #[trigger] lin.act(d).contains(q) && q < pos && lin.hist()[q as int] is Call
                    && lin.hist()[q as int].index() == c;
            assert(covered_step(ops, t, done, st, lin.hist()[q as int].index() as int));
            assert(covered(ops, t, done.insert(c), next));
            assert(done.insert(c).len() == done.len() + 1);
            assert forall|x: int| done.contains(x) || run.contains(x) implies records(
                t,
                x,
                (done.len() + run.len()) as int,
            ) by {
                if run.contains(x) && x != c {
                    let i = choose|i: int| 0 <= i < run.len() && run[i] == x;
                    assert(rest[i - 1] == x);
                    assert(rest.contains(x));
                } else {
                    assert(done.insert(c).contains(x));
                }
            }
        }
    }
}

/// What recording the stack does to the table: what it recorded before
/// stays recorded, every slot still names a sequence that holds its
/// operation, and every operation on the stack has a recorded sequence as
/// long as the stack.
pub proof fn lemma_update_records<M: Model>(lin: Linearizer<M>, t: LongestTable)
    requires
        lin.inv(),
        lin.computes_info(),
        slots_named(lin.table()),
        ({
            let t0 = lin.table();
            let any = exists|k: int| 0 <= k < lin.depth() && lin.needs_update(#[trigger] lin.order()[k]);
            &&& t.seqs_view() == (if any {
                t0.seqs_view().push(lin.order().map_values(|x: int| x as usize))
            } else {
                t0.seqs_view()
            })
            &&& t.slots@.len() == t0.slots@.len()
            &&& forall|x: int|
                0 <= x < t.slots@.len() ==> #[trigger] t.slots@[x] == (if lin.done_at(lin.depth()).contains(x)
                    && lin.needs_update(x) {
                    Some(t0.seqs@.len() as usize)
                } else {
                    t0.slots@[x]
                })
        }),
    ensures
        grows(lin.table(), t),
        slots_named(t),
        forall|x: int| #[trigger] lin.done_at(lin.depth()).contains(x) ==> records(t, x, lin.depth()),
{
    let t0 = lin.table();
    let d = lin.depth();
    let order = lin.order();
    let done = lin.done_at(d);
    let full = order.map_values(|x: int| x as usize);
    let any = exists|k: int| 0 <= k < d && lin.needs_update(#[trigger] order[k]);
    lin.lemma_stack();
    assert(t.seqs_view().len() == t.seqs@.len());
    assert(t0.seqs_view().len() == t0.seqs@.len());
    assert forall|i: int| 0 <= i < t0.seqs@.len() implies #[trigger] t.seqs@[i]@ == t0.seqs@[i]@ by {
        assert(t.seqs_view()[i] == t0.seqs_view()[i]);
    }
    // An operation of the stack that needs the stack recorded gets it.
    assert forall|x: int| done.contains(x) && lin.needs_update(x) implies {
        &&& t.seqs@.len() == t0.seqs@.len() + 1
        &&& #[trigger] t.seqs@[t0.seqs@.len() as int]@ == full
        &&& full.len() == d
        &&& full.contains(x as usize)
    } by {
        let k = choose|k: int| 0 <= k < d && order[k] == x;
        assert(lin.needs_update(order[k]));
        assert(any);
        assert(t.seqs_view()[t0.seqs@.len() as int] == full);
        assert(full[k] == x as usize);
    }
    assert forall|x: int, len: int| #[trigger] records(t0, x, len) implies records(t, x, len) by {
        let i = t0.slots@[x]->0 as int;
        if done.contains(x) && lin.needs_update(x) {
            assert(t.seqs@[t0.seqs@.len() as int]@ == full);
            assert(t0.seqs@[i]@.len() < d);
            assert(t.seqs@.len() == t.seqs.len());
        } else {
            assert(t.slots@[x] == t0.slots@[x]);
            assert(t.seqs@[i]@ == t0.seqs@[i]@);
        }
    }
    assert forall|x: int| 0 <= x < t.slots@.len() && #[trigger] t.slots@[x] is Some implies (t.slots@[x]->0 as int)
        < t.seqs@.len() && t.seqs@[t.slots@[x]->0 as int]@.contains(x as usize) by {
        if done.contains(x) && lin.needs_update(x) {
            assert(t.seqs@[t0.seqs@.len() as int]@ == full);
            assert(t.seqs@.len() == t.seqs.len());
        } else {
            assert(t.slots@[x] == t0.slots@[x]);
            assert(t0.slots@[x] is Some);
            let i = t0.slots@[x]->0 as int;
            assert(t.seqs@[i]@ == t0.seqs@[i]@);
        }
    }
    assert forall|x: int| #[trigger] done.contains(x) implies records(t, x, d) by {
        if lin.needs_update(x) {
            assert(t.seqs@[t0.seqs@.len() as int]@ == full);
            assert(t.seqs@.len() == t.seqs.len());
        } else {
            assert(t.slots@[x] == t0.slots@[x]);
            assert(t0.slots@[x] is Some);
        }
    }
}

} // verus!
