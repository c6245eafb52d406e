//! The search over one partition, and the verdict over all partitions.
use crate::coverage::{
    covered, covered_step, covers_all, lemma_covered_grows, lemma_covered_step_grows, lemma_node_covered,
    lemma_runs_len, lemma_update_records, records, slots_named,
};
use crate::history::{
    dead_end, is_linearization, is_partial_linearization, lemma_prefix_set_agree, lemma_prefix_set_step,
    linearizable, lemma_prefix_set_empty, runs,
};
use crate::linearization_info::{first_ids, lemma_first_ids_named, lemma_named_in_first_ids, LinearizationInfo};
use crate::linearizer::{as_order, Linearizer, LongestTable};
use crate::events::{events_are_paired, events_to_ops};
use crate::model::{
    events_paired, events_wf, parts_view, splits, CheckResult, Event, EventModel, Model, Operation,
};
use crate::partition::{CheckEntry, Partition};
use crate::skip_list::{sorted_below, succ_of};
use core::sync::atomic::{AtomicBool, Ordering};
use vstd::laws_eq::obeys_concrete_eq;
use vstd::prelude::*;

verus! {

// ---------------------------------------------------------------------------
// Termination of the search
// ---------------------------------------------------------------------------

/// `base` to the power `e`.
pub open spec fn power(base: int, e: nat) -> int
    decreases e,
{
    if e == 0 {
        1
    } else {
        base * power(base, (e - 1) as nat)
    }
}

/// The digits `ds`, most significant first, read in base `base`.
pub open spec fn horner(ds: Seq<int>, base: int) -> int
    decreases ds.len(),
{
    if ds.len() == 0 {
        0
    } else {
        horner(ds.drop_last(), base) * base + ds.last()
    }
}

/// Digits below `base` read to less than `base` to the number of digits.
proof fn lemma_horner_bound(ds: Seq<int>, base: int)
    requires
        base > 0,
        forall|i: int| 0 <= i < ds.len() ==> 0 <= #[trigger] ds[i] < base,
    ensures
        0 <= horner(ds, base) < power(base, ds.len()),
    decreases ds.len(),
{
    if ds.len() > 0 {
        let h = ds.drop_last();
        assert forall|i: int| 0 <= i < h.len() implies 0 <= #[trigger] h[i] < base by {
            assert(h[i] == ds[i]);
        }
        lemma_horner_bound(h, base);
        let v = horner(h, base);
        let p = power(base, h.len());
        let l = ds.last();
        assert(0 <= l < base);
        assert(0 <= v * base + l < p * base) by (nonlinear_arith)
            requires
                0 <= v < p,
                0 <= l < base,
                base > 0,
        ;
        assert(power(base, ds.len()) == base * p);
    }
}

/// Reading digits is monotone in the lexicographic order of equally long
/// digit strings.
proof fn lemma_horner_lex(ds1: Seq<int>, ds2: Seq<int>, base: int, j: int)
    requires
        base > 0,
        ds1.len() == ds2.len(),
        0 <= j < ds1.len(),
        forall|i: int| 0 <= i < j ==> ds1[i] == ds2[i],
        ds1[j] < ds2[j],
        forall|i: int| 0 <= i < ds1.len() ==> 0 <= #[trigger] ds1[i] < base,
        forall|i: int| 0 <= i < ds2.len() ==> 0 <= #[trigger] ds2[i] < base,
    ensures
        horner(ds1, base) < horner(ds2, base),
    decreases ds1.len(),
{
    let h1 = ds1.drop_last();
    let h2 = ds2.drop_last();
    let l1 = ds1.last();
    let l2 = ds2.last();
    if j == ds1.len() - 1 {
        assert(h1 =~= h2);
        assert(horner(ds1, base) == horner(h1, base) * base + l1);
        assert(horner(ds2, base) == horner(h2, base) * base + l2);
    } else {
        assert forall|i: int| 0 <= i < h1.len() implies 0 <= #[trigger] h1[i] < base by {
            assert(h1[i] == ds1[i]);
        }
        assert forall|i: int| 0 <= i < h2.len() implies 0 <= #[trigger] h2[i] < base by {
            assert(h2[i] == ds2[i]);
        }
        lemma_horner_lex(h1, h2, base, j);
        let v1 = horner(h1, base);
        let v2 = horner(h2, base);
        assert(0 <= l1 < base);
        assert(0 <= l2 < base);
        assert(v1 * base + l1 < v2 * base + l2) by (nonlinear_arith)
            requires
                v1 < v2,
                0 <= l1 < base,
                0 <= l2,
                base > 0,
        ;
    }
}

/// The point the search has reached: the position of the call lifted at
/// each depth, then the current position, each plus one, padded with zeros
/// to `m + 1` digits.
pub open spec fn search_key(lifted: Seq<usize>, current: int, m: int) -> Seq<int> {
    Seq::new(
        (m + 1) as nat,
        |k: int|
            if k < lifted.len() {
                lifted[k] + 1
            } else if k == lifted.len() {
                current + 1
            } else {
                0
            },
    )
}

/// What is left of the search: the key only grows, and stays below
/// `(n + 2)` to the power `m + 1`.
pub open spec fn search_budget(lifted: Seq<usize>, current: int, m: int, n: int) -> int {
    power(n + 2, (m + 1) as nat) - horner(search_key(lifted, current, m), n + 2)
}

proof fn lemma_key_digits(lifted: Seq<usize>, current: int, m: int, n: int)
    requires
        lifted.len() <= m,
        0 <= current <= n,
        forall|k: int| 0 <= k < lifted.len() ==> #[trigger] lifted[k] < n,
    ensures
        forall|i: int|
            0 <= i < search_key(lifted, current, m).len() ==> 0 <= #[trigger] search_key(
                lifted,
                current,
                m,
            )[i] < n + 2,
{
}

/// The search budget shrinks when the key grows.
proof fn lemma_budget_shrinks(
    lifted1: Seq<usize>,
    current1: int,
    lifted2: Seq<usize>,
    current2: int,
    m: int,
    n: int,
    j: int,
)
    requires
        lifted1.len() <= m,
        lifted2.len() <= m,
        0 <= current1 <= n,
        0 <= current2 <= n,
        forall|k: int| 0 <= k < lifted1.len() ==> #[trigger] lifted1[k] < n,
        forall|k: int| 0 <= k < lifted2.len() ==> #[trigger] lifted2[k] < n,
        0 <= j <= m,
        forall|i: int|
            0 <= i < j ==> search_key(lifted1, current1, m)[i] == search_key(lifted2, current2, m)[i],
        search_key(lifted1, current1, m)[j] < search_key(lifted2, current2, m)[j],
    ensures
        0 <= search_budget(lifted2, current2, m, n) < search_budget(lifted1, current1, m, n),
{
    lemma_key_digits(lifted1, current1, m, n);
    lemma_key_digits(lifted2, current2, m, n);
    lemma_horner_lex(search_key(lifted1, current1, m), search_key(lifted2, current2, m), n + 2, j);
    lemma_horner_bound(search_key(lifted2, current2, m), n + 2);
}

// ---------------------------------------------------------------------------
// Core loop — one partition
// ---------------------------------------------------------------------------

/// Whether cancellation was requested.  Without a flag, never.
fn is_cancelled(kill: Option<&AtomicBool>) -> (r: bool)
    ensures
        kill is None ==> !r,
{
    match kill {
        Some(k) => k.load(Ordering::Relaxed),
        None => false,
    }
}

/// Run the search on one partition.
///
/// Returns the verdict and the recorded partial linearizations (none when
/// `compute_info` is `false`).  `Legal` comes with a linearization, and
/// `Illegal` means that none exists; `Unknown` means that the search was
/// cancelled through `kill`.  Unless cancelled, the search records for
/// every operation a sequence that holds it and is as long as any partial
/// linearization that holds it (when the model's states compare as they
/// are: the memo of visited pairs relies on it).
pub fn check_single<M: Model>(
    partition: &Partition<M>,
    kill: Option<&AtomicBool>,
    compute_info: bool,
) -> (r: (CheckResult, LongestTable))
    requires
        partition.wf(),
        partition.check_history@.len() + 1 < usize::MAX,
    ensures
        r.0 == CheckResult::Legal ==> linearizable(partition.ops@),
        r.0 == CheckResult::Illegal && obeys_concrete_eq::<M::State>() ==> !linearizable(
            partition.ops@,
        ),
        kill is None ==> r.0 != CheckResult::Unknown,
        r.1.wf(),
        compute_info ==> r.1.slots@.len() == partition.ops@.len(),
        !compute_info ==> r.1.slots@.len() == 0 && r.1.seqs@.len() == 0,
        forall|i: int|
            0 <= i < r.1.seqs@.len() ==> is_partial_linearization(
                partition.ops@,
                as_order(#[trigger] r.1.seqs@[i]@),
            ),
        r.0 == CheckResult::Legal && compute_info ==> forall|x: int|
            0 <= x < r.1.slots@.len() ==> (#[trigger] r.1.slots@[x] matches Some(i) && i < r.1.seqs@.len()
                && is_linearization(partition.ops@, as_order(r.1.seqs@[i as int]@))),
        r.0 == CheckResult::Legal && compute_info ==> exists|i: int|
            0 <= i < r.1.seqs@.len() && is_linearization(partition.ops@, as_order(r.1.seqs@[i]@))
                && forall|x: int| 0 <= x < r.1.slots@.len() ==> #[trigger] r.1.slots@[x] == Some(i as usize),
        compute_info && obeys_concrete_eq::<M::State>() && r.0 != CheckResult::Unknown ==> covers_all(
            partition.ops@,
            r.1,
        ),
{
    let n = partition.check_history.len();
    let mut linearizer = Linearizer::<M>::new(partition, compute_info);
    let mut current = linearizer.front();
    let ghost m = partition.ops@.len() as int;
    let ghost ci = compute_info && obeys_concrete_eq::<M::State>();
    proof {
        linearizer.lemma_stack();
        linearizer.lemma_act(0);
        if linearizer.act(0).len() > 0 {
            assert(linearizer.act(0).contains(linearizer.act(0)[0]));
        }
    }
    while current < n
        invariant
            linearizer.inv(),
            linearizer.partition_view() == partition,
            linearizer.computes_info() == compute_info,
            n == partition.check_history@.len(),
            m == partition.ops@.len(),
            current <= n,
            current == n || linearizer.act(linearizer.depth()).contains(current),
            forall|q: usize|
                #[trigger] linearizer.act(linearizer.depth()).contains(q) && q < current ==> {
                    &&& linearizer.hist()[q as int] is Call
                    &&& Linearizer::<M>::exact() ==> dead_end(
                        linearizer.ops(),
                        linearizer.done_at(linearizer.depth()),
                        linearizer.states()[linearizer.depth()],
                        linearizer.hist()[q as int].index() as int,
                    )
                },
            !compute_info ==> linearizer.table().slots@.len() == 0 && linearizer.table().seqs@.len()
                == 0,
            ci == (compute_info && obeys_concrete_eq::<M::State>()),
            ci ==> slots_named(linearizer.table()),
            ci ==> forall|q: usize|
                #[trigger] linearizer.act(linearizer.depth()).contains(q) && q < current ==> covered_step(
                    linearizer.ops(),
                    linearizer.table(),
                    linearizer.done_at(linearizer.depth()),
                    linearizer.states()[linearizer.depth()],
                    linearizer.hist()[q as int].index() as int,
                ),
            ci ==> forall|k: int, q: usize|
                0 <= k < linearizer.depth() && #[trigger] linearizer.act(k).contains(q) && q
                    < linearizer.lifted_positions()[k] ==> covered_step(
                    linearizer.ops(),
                    linearizer.table(),
                    linearizer.done_at(k),
                    linearizer.states()[k],
                    linearizer.hist()[q as int].index() as int,
                ),
            ci ==> forall|set: Set<int>, s: M::State| #[trigger]
                linearizer.cached(set, s) ==> linearizer.on_stack(set, s) || covered(
                    linearizer.ops(),
                    linearizer.table(),
                    set,
                    s,
                ),
        decreases search_budget(linearizer.lifted_positions(), current as int, m, n as int),
    {
        // Cooperative cancellation — checked at the top of every iteration.
        if is_cancelled(kill) {
            proof {
                linearizer.lemma_stack();
            }
            return (CheckResult::Unknown, linearizer.into_longest());
        }
        let ghost old_lin = linearizer;
        let ghost d = linearizer.depth();
        let ghost old_current = current;
        proof {
            linearizer.lemma_stack();
            linearizer.lemma_act(d);
        }
        let ghost j = choose|j: int|
            0 <= j < linearizer.act(d).len() && #[trigger] linearizer.act(d)[j] == current;
        match partition.check_history[current] {
            CheckEntry::Call { .. } => {
                proof {
                    linearizer.lemma_scan_minimal(current);
                }
                match linearizer.try_linearize(current) {
                    Some(next_state) => {
                        proof {
                            linearizer.lemma_stack();
                            linearizer.lemma_act(d);
                        }
                        linearizer.lift(current, next_state);
                        current = linearizer.front();
                        proof {
                            linearizer.lemma_stack();
                            linearizer.lemma_act(d + 1);
                            if linearizer.act(d + 1).len() > 0 {
                                assert(linearizer.act(d + 1).contains(linearizer.act(d + 1)[0]));
                            }
                            assert forall|q: usize|
                                #[trigger] linearizer.act(d + 1).contains(q) implies q >= current by {
                                let i = choose|i: int|
                                    0 <= i < linearizer.act(d + 1).len() && #[trigger] linearizer.act(
                                        d + 1,
                                    )[i] == q;
                                if i > 0 {
                                    assert(linearizer.act(d + 1)[0] < linearizer.act(d + 1)[i]);
                                }
                            }
                            let k1 = search_key(old_lin.lifted_positions(), old_current as int, m);
                            let k2 = search_key(linearizer.lifted_positions(), current as int, m);
                            assert forall|i: int| 0 <= i < d + 1 implies k1[i] == k2[i] by {}
                            lemma_budget_shrinks(
                                old_lin.lifted_positions(),
                                old_current as int,
                                linearizer.lifted_positions(),
                                current as int,
                                m,
                                n as int,
                                d + 1,
                            );
                            if ci {
                                let lin2 = linearizer;
                                let o = old_lin.hist()[old_current as int].index() as int;
                                let nxt = M::step_spec(old_lin.states()[d], old_lin.ops()[o].op).1;
                                assert forall|k: int| 0 <= k <= d implies #[trigger] lin2.done_at(k)
                                    == old_lin.done_at(k) by {
                                    lemma_prefix_set_agree(lin2.order(), old_lin.order(), k);
                                }
                                lemma_prefix_set_step(lin2.order(), d);
                                assert(lin2.order()[d] == o);
                                assert(lin2.done_at(d) == old_lin.done_at(d));
                                assert(lin2.done_at(d + 1) == old_lin.done_at(d).insert(o));
                                assert(lin2.states()[d + 1] == nxt);
                                assert forall|k: int, q: usize|
                                    0 <= k < lin2.depth() && #[trigger] lin2.act(k).contains(q) && q
                                        < lin2.lifted_positions()[k] implies covered_step(
                                    lin2.ops(),
                                    lin2.table(),
                                    lin2.done_at(k),
                                    lin2.states()[k],
                                    lin2.hist()[q as int].index() as int,
                                ) by {
                                    assert(lin2.act(k) == old_lin.act(k));
                                    assert(lin2.states()[k] == old_lin.states()[k]);
                                    assert(lin2.done_at(k) == old_lin.done_at(k));
                                    if k < d {
                                        assert(lin2.lifted_positions()[k] == old_lin.lifted_positions()[k]);
                                        assert(old_lin.act(k).contains(q));
                                    } else {
                                        assert(lin2.lifted_positions()[k] == old_current);
                                        assert(old_lin.act(old_lin.depth()).contains(q));
                                    }
                                }
                                assert forall|set: Set<int>, s: M::State| #[trigger]
                                    lin2.cached(set, s) implies lin2.on_stack(set, s) || covered(
                                    lin2.ops(),
                                    lin2.table(),
                                    set,
                                    s,
                                ) by {
                                    if set == old_lin.done_at(d).insert(o) && s == nxt {
                                        assert(lin2.states()[d + 1] == s);
                                        assert(lin2.done_at(d + 1) == set);
                                    } else {
                                        assert(old_lin.cached(set, s));
                                        if old_lin.on_stack(set, s) {
                                            let k = choose|k: int|
                                                1 <= k <= old_lin.depth() && set == old_lin.done_at(k) && s
                                                    == #[trigger] old_lin.states()[k];
                                            assert(lin2.states()[k] == s);
                                            assert(lin2.done_at(k) == set);
                                        }
                                    }
                                }
                            }
                        }
                    },
                    None => {
                        proof {
                            linearizer.lemma_stack();
                        }
                        current = linearizer.next_of(current);
                        proof {
                            linearizer.lemma_stack();
                            linearizer.lemma_act(d);
                            let act = linearizer.act(d);
                            assert forall|q: usize| #[trigger] act.contains(q) && q < current implies q
                                <= old_current by {
                                let i = choose|i: int| 0 <= i < act.len() && act[i] == q;
                                if i > j {
                                    assert(act[j + 1] <= act[i]);
                                }
                            }
                            if j + 1 < act.len() {
                                assert(act.contains(act[j + 1]));
                            }
                            let k1 = search_key(old_lin.lifted_positions(), old_current as int, m);
                            let k2 = search_key(linearizer.lifted_positions(), current as int, m);
                            assert forall|i: int| 0 <= i < d implies k1[i] == k2[i] by {}
                            lemma_budget_shrinks(
                                old_lin.lifted_positions(),
                                old_current as int,
                                linearizer.lifted_positions(),
                                current as int,
                                m,
                                n as int,
                                d,
                            );
                            if ci {
                                let o = old_lin.hist()[old_current as int].index() as int;
                                let (ok, nxt) = M::step_spec(old_lin.states()[d], old_lin.ops()[o].op);
                                if ok {
                                    assert(old_lin.cached(old_lin.done_at(d).insert(o), nxt));
                                    assert(!old_lin.on_stack(old_lin.done_at(d).insert(o), nxt));
                                }
                                assert(covered_step(
                                    old_lin.ops(),
                                    old_lin.table(),
                                    old_lin.done_at(d),
                                    old_lin.states()[d],
                                    o,
                                ));
                                assert forall|q: usize|
                                    #[trigger] linearizer.act(linearizer.depth()).contains(q) && q
                                        < current implies covered_step(
                                    linearizer.ops(),
                                    linearizer.table(),
                                    linearizer.done_at(linearizer.depth()),
                                    linearizer.states()[linearizer.depth()],
                                    linearizer.hist()[q as int].index() as int,
                                ) by {
                                    assert(act.contains(q));
                                    if q < old_current {
                                        assert(old_lin.act(old_lin.depth()).contains(q));
                                    }
                                }
                                assert forall|k: int, q: usize|
                                    0 <= k < linearizer.depth() && #[trigger] linearizer.act(k).contains(q)
                                        && q < linearizer.lifted_positions()[k] implies covered_step(
                                    linearizer.ops(),
                                    linearizer.table(),
                                    linearizer.done_at(k),
                                    linearizer.states()[k],
                                    linearizer.hist()[q as int].index() as int,
                                ) by {
                                    assert(old_lin.act(k).contains(q));
                                }
                            }
                        }
                    },
                }
            },
            CheckEntry::Return { .. } => {
                // A Return is at the head without its Call being lifted — every
                // candidate that could precede it has been tried.  Before
                // backtracking, record the current stack depth as the longest
                // partial linearization seen so far for each stacked operation.
                proof {
                    linearizer.lemma_scan_return(current);
                }
                linearizer.update_longest();
                proof {
                    linearizer.lemma_stack();
                }
                let ghost lin1 = linearizer;
                proof {
                    if ci {
                        let t0 = old_lin.table();
                        let t1 = lin1.table();
                        lemma_update_records(old_lin, t1);
                        assert forall|q: usize| #[trigger] lin1.act(d).contains(q) && q < old_current implies covered_step(
                            lin1.ops(),
                            t1,
                            lin1.done_at(d),
                            lin1.states()[d],
                            lin1.hist()[q as int].index() as int,
                        ) by {
                            assert(old_lin.act(d).contains(q));
                            lemma_covered_step_grows(
                                old_lin.ops(),
                                t0,
                                t1,
                                old_lin.done_at(d),
                                old_lin.states()[d],
                                old_lin.hist()[q as int].index() as int,
                            );
                        }
                        assert forall|k: int, q: usize|
                            0 <= k < lin1.depth() && #[trigger] lin1.act(k).contains(q) && q
                                < lin1.lifted_positions()[k] implies covered_step(
                            lin1.ops(),
                            t1,
                            lin1.done_at(k),
                            lin1.states()[k],
                            lin1.hist()[q as int].index() as int,
                        ) by {
                            assert(old_lin.act(k).contains(q));
                            lemma_covered_step_grows(
                                old_lin.ops(),
                                t0,
                                t1,
                                old_lin.done_at(k),
                                old_lin.states()[k],
                                old_lin.hist()[q as int].index() as int,
                            );
                        }
                        assert forall|set: Set<int>, s: M::State| #[trigger]
                            lin1.cached(set, s) implies lin1.on_stack(set, s) || covered(
                            lin1.ops(),
                            t1,
                            set,
                            s,
                        ) by {
                            assert(old_lin.cached(set, s));
                            if !old_lin.on_stack(set, s) {
                                lemma_covered_grows(old_lin.ops(), t0, t1, set, s);
                            }
                        }
                        lemma_node_covered(lin1, old_current, t1);
                    }
                }
                match linearizer.backtrack() {
                    Some(pos) => {
                        proof {
                            linearizer.lemma_stack();
                            linearizer.lemma_act(d - 1);
                        }
                        let ghost j2 = choose|j2: int|
                            0 <= j2 < linearizer.act(d - 1).len() && #[trigger] linearizer.act(d - 1)[j2]
                                == pos;
                        current = linearizer.next_of(pos);
                        proof {
                            let act = linearizer.act(d - 1);
                            assert forall|q: usize| #[trigger] act.contains(q) && q < current implies q
                                <= pos by {
                                let i = choose|i: int| 0 <= i < act.len() && act[i] == q;
                                if i > j2 {
                                    assert(act[j2 + 1] <= act[i]);
                                }
                            }
                            if j2 + 1 < act.len() {
                                assert(act.contains(act[j2 + 1]));
                            }
                            let k1 = search_key(old_lin.lifted_positions(), old_current as int, m);
                            let k2 = search_key(linearizer.lifted_positions(), current as int, m);
                            assert forall|i: int| 0 <= i < d - 1 implies k1[i] == k2[i] by {}
                            lemma_budget_shrinks(
                                old_lin.lifted_positions(),
                                old_current as int,
                                linearizer.lifted_positions(),
                                current as int,
                                m,
                                n as int,
                                d - 1,
                            );
                            if ci {
                                let lin2 = linearizer;
                                let t1 = lin1.table();
                                let o = lin1.order()[d - 1];
                                assert forall|k: int| 0 <= k <= d - 1 implies #[trigger] lin2.done_at(k)
                                    == lin1.done_at(k) by {
                                    lemma_prefix_set_agree(lin2.order(), lin1.order(), k);
                                }
                                assert(lin2.done_at(d - 1) == lin1.done_at(d - 1));
                                assert(lin2.states()[d - 1] == lin1.states()[d - 1]);
                                assert(covered(lin1.ops(), t1, lin1.done_at(d), lin1.states()[d]));
                                assert(covered_step(lin2.ops(), t1, lin2.done_at(d - 1), lin2.states()[d - 1], o));
                                assert forall|q: usize|
                                    #[trigger] lin2.act(lin2.depth()).contains(q) && q < current implies covered_step(
                                    lin2.ops(),
                                    lin2.table(),
                                    lin2.done_at(lin2.depth()),
                                    lin2.states()[lin2.depth()],
                                    lin2.hist()[q as int].index() as int,
                                ) by {
                                    assert(act.contains(q));
                                    if q < pos {
                                        assert(lin1.act(d - 1).contains(q));
                                        assert(lin1.lifted_positions()[d - 1] == pos);
                                    } else {
                                        assert(q == pos);
                                    }
                                }
                                assert forall|k: int, q: usize|
                                    0 <= k < lin2.depth() && #[trigger] lin2.act(k).contains(q) && q
                                        < lin2.lifted_positions()[k] implies covered_step(
                                    lin2.ops(),
                                    lin2.table(),
                                    lin2.done_at(k),
                                    lin2.states()[k],
                                    lin2.hist()[q as int].index() as int,
                                ) by {
                                    assert(lin1.act(k).contains(q));
                                    assert(lin2.lifted_positions()[k] == lin1.lifted_positions()[k]);
                                    assert(lin2.done_at(k) == lin1.done_at(k));
                                    assert(lin2.states()[k] == lin1.states()[k]);
                                }
                                assert forall|set: Set<int>, s: M::State| #[trigger]
                                    lin2.cached(set, s) implies lin2.on_stack(set, s) || covered(
                                    lin2.ops(),
                                    lin2.table(),
                                    set,
                                    s,
                                ) by {
                                    assert(lin1.cached(set, s));
                                    if lin1.on_stack(set, s) {
                                        let k = choose|k: int|
                                            1 <= k <= lin1.depth() && set == lin1.done_at(k) && s
                                                == #[trigger] lin1.states()[k];
                                        if k < d {
                                            assert(lin2.states()[k] == s);
                                            assert(lin2.done_at(k) == set);
                                        }
                                    }
                                }
                            }
                        }
                    },
                    None => {
                        proof {
                            linearizer.lemma_stack();
                            if ci {
                                let t1 = lin1.table();
                                assert(covered(lin1.ops(), t1, lin1.done_at(0), lin1.states()[0]));
                                assert forall|q: Seq<int>, x: int|
                                    #[trigger] is_partial_linearization(partition.ops@, q) && #[trigger] q.contains(
                                        x,
                                    ) implies records(t1, x, q.len() as int) by {
                                    assert(runs(lin1.ops(), lin1.done_at(0), lin1.states()[0], q));
                                    assert(lin1.done_at(0).len() == 0);
                                }
                            }
                        }
                        return (CheckResult::Illegal, linearizer.into_longest());
                    },
                }
            },
        }
    }
    // Every entry was lifted: complete linearization found.
    proof {
        linearizer.lemma_stack();
        linearizer.lemma_act(linearizer.depth());
        linearizer.lemma_scan_done();
    }
    let ghost order = linearizer.order();
    let ghost t0 = linearizer.table();
    let ghost done_all = linearizer.done_at(linearizer.depth());
    let ghost depth = linearizer.depth();
    assert(linearizer.done_at(depth).finite() && linearizer.done_at(depth).len() == depth);
    assert(is_linearization(partition.ops@, order));
    linearizer.finalize_longest();
    proof {
        linearizer.lemma_stack();
        if compute_info {
            let t = linearizer.table();
            let i = t0.seqs@.len() as int;
            assert(t.seqs_view().len() == t.seqs@.len());
            assert(t0.seqs_view().len() == t0.seqs@.len());
            assert(t.seqs_view()[i] == order.map_values(|x: int| x as usize));
            assert(t.seqs@[i]@ == t.seqs_view()[i]);
            assert(as_order(t.seqs@[i]@) =~= order);
            assert forall|x: int| 0 <= x < t.slots@.len() implies (#[trigger] t.slots@[x] matches Some(
                k,
            ) && k < t.seqs@.len() && is_linearization(partition.ops@, as_order(t.seqs@[k as int]@))) by {
                assert(t.slots@[x] == Some(i as usize));
                assert((i as usize) as int == i);
                assert(is_linearization(partition.ops@, as_order(t.seqs@[i]@)));
            }
            assert(is_linearization(partition.ops@, as_order(t.seqs@[i]@)));
            if ci {
                let full = order.map_values(|x: int| x as usize);
                assert(t.seqs@[i]@ == full);
                vstd::set_lib::lemma_int_range(0, m);
                assert(vstd::set_lib::set_int_range(0, m).subset_of(done_all));
                vstd::set_lib::lemma_len_subset(vstd::set_lib::set_int_range(0, m), done_all);
                assert(m <= depth);
                assert forall|q: Seq<int>, x: int|
                    #[trigger] is_partial_linearization(partition.ops@, q) && #[trigger] q.contains(x) implies records(
                    t,
                    x,
                    q.len() as int,
                ) by {
                    lemma_runs_len(partition.ops@, Set::<int>::empty(), M::init_spec(), q);
                    let k = choose|k: int| 0 <= k < q.len() && q[k] == x;
                    assert(0 <= x < m);
                    assert(done_all.contains(x));
                    let kk = choose|kk: int| 0 <= kk < depth && order[kk] == x;
                    assert(full[kk] == x as usize);
                    assert(t.slots@[x] == Some(i as usize));
                    assert((i as usize) as int == i);
                }
            }
        }
    }
    (CheckResult::Legal, linearizer.into_longest())
}


// ---------------------------------------------------------------------------
// The verdict over all partitions
// ---------------------------------------------------------------------------

/// The verdict over several partitions: `Illegal` if any partition is,
/// else `Unknown` if any partition is, else `Legal`.
pub open spec fn combined(results: Seq<CheckResult>) -> CheckResult {
    if exists|i: int| 0 <= i < results.len() && results[i] == CheckResult::Illegal {
        CheckResult::Illegal
    } else if exists|i: int| 0 <= i < results.len() && results[i] == CheckResult::Unknown {
        CheckResult::Unknown
    } else {
        CheckResult::Legal
    }
}

/// Combine the verdicts of the partitions of one history.
pub fn combine_verdicts(results: &Vec<CheckResult>) -> (r: CheckResult)
    ensures
        r == combined(results@),
{
    let mut any_unknown = false;
    let mut i: usize = 0;
    while i < results.len()
        invariant
            i <= results@.len(),
            forall|j: int| 0 <= j < i ==> results@[j] != CheckResult::Illegal,
            any_unknown <==> exists|j: int| 0 <= j < i && results@[j] == CheckResult::Unknown,
        decreases results@.len() - i,
    {
        match results[i] {
            CheckResult::Illegal => {
                return CheckResult::Illegal;
            },
            CheckResult::Unknown => {
                any_unknown = true;
            },
            CheckResult::Legal => {},
        }
        i = i + 1;
    }
    if any_unknown {
        CheckResult::Unknown
    } else {
        CheckResult::Legal
    }
}

/// What the collector of verdicts asks for after an event: whether the
/// searches still running are to be cancelled, and whether to stop waiting
/// for verdicts.
#[derive(Clone, Copy, Debug, PartialEq, Eq, Structural)]
pub struct Next {
    pub cancel: bool,
    pub stop: bool,
}

/// The verdicts of partitions searched concurrently, as they arrive.
///
/// A partition whose verdict has not arrived counts as `Unknown`.  Without
/// the info, the first `Illegal` verdict settles the history, so the other
/// searches are cancelled; with it, every search is waited for.  When the
/// time limit passes, the searches are cancelled, and with the info the
/// collector still waits for each of them to report.
pub struct Collector {
    pub results: Vec<CheckResult>,
    pub received: usize,
    pub compute_info: bool,
}

impl Collector {
    /// A collector for `total` partitions, none of which has reported.
    pub fn new(total: usize, compute_info: bool) -> (c: Self)
        ensures
            c.results@ == Seq::new(total as nat, |i: int| CheckResult::Unknown),
            c.received == 0,
            c.compute_info == compute_info,
    {
        let mut results: Vec<CheckResult> = Vec::new();
        let mut k: usize = 0;
        while k < total
            invariant
                k <= total,
                results@ == Seq::new(k as nat, |i: int| CheckResult::Unknown),
            decreases total - k,
        {
            results.push(CheckResult::Unknown);
            k = k + 1;
            proof {
                assert(results@ =~= Seq::new(k as nat, |i: int| CheckResult::Unknown));
            }
        }
        Collector { results, received: 0, compute_info }
    }

    /// Partition `i` reported `verdict`.
    pub fn on_result(&mut self, i: usize, verdict: CheckResult) -> (next: Next)
        requires
            i < old(self).results@.len(),
            old(self).received < old(self).results@.len(),
        ensures
            final(self).results@ == old(self).results@.update(i as int, verdict),
            final(self).received == old(self).received + 1,
            final(self).compute_info == old(self).compute_info,
            next.cancel == (verdict == CheckResult::Illegal && !old(self).compute_info),
            next.stop == (next.cancel || final(self).received == final(self).results@.len()),
    {
        let total = self.results.len();
        self.results.set(i, verdict);
        self.received = self.received + 1;
        let cancel = verdict == CheckResult::Illegal && !self.compute_info;
        Next { cancel, stop: cancel || self.received == total }
    }

    /// The time limit passed.
    pub fn on_timeout(&self) -> (next: Next)
        ensures
            next.cancel,
            next.stop == !self.compute_info,
    {
        Next { cancel: true, stop: !self.compute_info }
    }

    /// The verdict over all partitions, from what has arrived.
    pub fn verdict(&self) -> (r: CheckResult)
        ensures
            r == combined(self.results@),
    {
        combine_verdicts(&self.results)
    }
}

/// Every sequence that `t` records is a partial linearization of `ops`.
pub open spec fn records_partial<M: Model>(t: LongestTable, ops: Seq<Operation<M>>) -> bool {
    &&& t.wf()
    &&& forall|i: int|
        0 <= i < t.seqs@.len() ==> is_partial_linearization(ops, as_order(#[trigger] t.seqs@[i]@))
}

/// Every slot of `t` names a complete linearization of `ops`.
pub open spec fn records_complete<M: Model>(t: LongestTable, ops: Seq<Operation<M>>) -> bool {
    forall|x: int|
        0 <= x < t.slots@.len() ==> (#[trigger] t.slots@[x] matches Some(i) && i < t.seqs@.len()
            && is_linearization(ops, as_order(t.seqs@[i as int]@)))
}

/// The sequences that the info keeps for a partition are those that its
/// table records, so they are partial linearizations, and complete ones
/// when every slot names a complete one.
proof fn lemma_kept_sequences<M: Model>(t: LongestTable, ops: Seq<Operation<M>>, kept: Seq<Vec<usize>>, k: int)
    requires
        records_partial(t, ops),
        kept.len() == first_ids(t.slots@).len(),
        forall|j: int| 0 <= j < kept.len() ==> #[trigger] kept[j]@ == t.seqs@[first_ids(t.slots@)[j] as int]@,
        0 <= k < kept.len(),
    ensures
        is_partial_linearization(ops, as_order(kept[k]@)),
        records_complete(t, ops) ==> is_linearization(ops, as_order(kept[k]@)),
{
    lemma_first_ids_named(t.slots@, k);
    let x = choose|x: int| 0 <= x < t.slots@.len() && t.slots@[x] == Some(first_ids(t.slots@)[k]);
    let id = first_ids(t.slots@)[k];
    assert(t.slots@[x] is Some);
    assert(id < t.seqs@.len());
    assert(kept[k]@ == t.seqs@[id as int]@);
    assert(is_partial_linearization(ops, as_order(t.seqs@[id as int]@)));
}

/// Check every partition, one after the other.
///
/// The verdict is `Legal` exactly when every partition is linearizable
/// (when the model's states compare as they are), and `Illegal` otherwise.
/// Without `compute_info` the check stops at the first partition that is
/// not linearizable, and the info is empty; with it, every partition is
/// checked and the info holds, for each, its operations and the longest
/// partial linearizations that the search recorded.
pub fn check_partitions<M: Model>(partitions: Vec<Partition<M>>, compute_info: bool) -> (r: (
    CheckResult,
    LinearizationInfo<M>,
))
    requires
        forall|p: int|
            0 <= p < partitions@.len() ==> (#[trigger] partitions@[p]).wf()
                && partitions@[p].check_history@.len() + 1 < usize::MAX,
    ensures
        r.0 != CheckResult::Unknown,
        r.0 == CheckResult::Legal ==> forall|p: int|
            0 <= p < partitions@.len() ==> linearizable(#[trigger] partitions@[p].ops@),
        obeys_concrete_eq::<M::State>() ==> (r.0 == CheckResult::Legal <==> forall|p: int|
            0 <= p < partitions@.len() ==> linearizable(#[trigger] partitions@[p].ops@)),
        compute_info ==> {
            &&& r.1.wf()
            &&& r.1.annotations@.len() == 0
            &&& r.1.partition_ops@.len() == partitions@.len()
            &&& forall|p: int|
                0 <= p < partitions@.len() ==> (#[trigger] r.1.partition_ops@[p])@ == partitions@[p].ops@
        },
        compute_info && obeys_concrete_eq::<M::State>() ==> r.1.lists_longest(),
        compute_info && r.0 == CheckResult::Legal ==> forall|p: int, k: int|
            0 <= p < r.1.partial_linearizations@.len() && 0 <= k
                < r.1.partial_linearizations@[p]@.len() ==> is_linearization(
                r.1.partition_ops@[p]@,
                as_order(#[trigger] r.1.partial_linearizations@[p]@[k]@),
            ),
        !compute_info ==> r.1.partial_linearizations@.len() == 0 && r.1.partition_ops@.len() == 0
            && r.1.annotations@.len() == 0,
{
    let ghost parts = partitions@;
    let mut rest = partitions;
    let mut reversed: Vec<Partition<M>> = Vec::new();
    while rest.len() > 0
        invariant
            rest@.len() + reversed@.len() == parts.len(),
            rest@ == parts.take(rest@.len() as int),
            forall|j: int| 0 <= j < reversed@.len() ==> #[trigger] reversed@[j] == parts[parts.len() - 1 - j],
        decreases rest@.len(),
    {
        let part = rest.pop().unwrap();
        reversed.push(part);
        proof {
            assert(rest@ =~= parts.take(rest@.len() as int));
        }
    }
    let mut ok_all = true;
    let mut tables: Vec<LongestTable> = Vec::new();
    let mut partition_ops: Vec<Vec<Operation<M>>> = Vec::new();
    while reversed.len() > 0
        invariant
            forall|p: int|
                0 <= p < parts.len() ==> (#[trigger] parts[p]).wf() && parts[p].check_history@.len()
                    + 1 < usize::MAX,
            partition_ops@.len() + reversed@.len() == parts.len(),
            tables@.len() == partition_ops@.len(),
            forall|j: int| 0 <= j < reversed@.len() ==> #[trigger] reversed@[j] == parts[parts.len() - 1 - j],
            forall|q: int| 0 <= q < partition_ops@.len() ==> (#[trigger] partition_ops@[q])@ == parts[q].ops@,
            forall|q: int| 0 <= q < tables@.len() ==> records_partial(#[trigger] tables@[q], parts[q].ops@),
            ok_all ==> forall|q: int| 0 <= q < partition_ops@.len() ==> linearizable(#[trigger] parts[q].ops@),
            ok_all && compute_info ==> forall|q: int|
                0 <= q < tables@.len() ==> records_complete(#[trigger] tables@[q], parts[q].ops@),
            !ok_all && obeys_concrete_eq::<M::State>() ==> exists|q: int|
                0 <= q < partition_ops@.len() && !linearizable(#[trigger] parts[q].ops@),
            !compute_info ==> forall|q: int| 0 <= q < tables@.len() ==> (#[trigger] tables@[q]).seqs@.len() == 0,
            compute_info && obeys_concrete_eq::<M::State>() ==> forall|q: int|
                0 <= q < tables@.len() ==> covers_all(parts[q].ops@, #[trigger] tables@[q]),
        ensures
            ok_all || compute_info ==> partition_ops@.len() == parts.len(),
        decreases reversed@.len(),
    {
        let ghost q = partition_ops@.len() as int;
        let part = reversed.pop().unwrap();
        proof {
            assert(part == parts[q]);
        }
        let (res, table) = check_single(&part, None, compute_info);
        if res == CheckResult::Illegal {
            ok_all = false;
            if !compute_info {
                tables.push(table);
                partition_ops.push(part.ops);
                break;
            }
        }
        tables.push(table);
        partition_ops.push(part.ops);
    }
    let verdict = if ok_all {
        CheckResult::Legal
    } else {
        CheckResult::Illegal
    };
    if !compute_info {
        return (verdict, LinearizationInfo::empty());
    }
    let ghost ts = tables@;
    let ghost os = partition_ops@;
    let info = LinearizationInfo::from_longest(tables, partition_ops);
    proof {
        assert forall|p: int, k: int|
            0 <= p < info.partial_linearizations@.len() && 0 <= k
                < info.partial_linearizations@[p]@.len() implies is_partial_linearization(
            info.partition_ops@[p]@,
            as_order(#[trigger] info.partial_linearizations@[p]@[k]@),
        ) && (ok_all ==> is_linearization(
            info.partition_ops@[p]@,
            as_order(info.partial_linearizations@[p]@[k]@),
        )) by {
            let t = ts[p];
            assert(records_partial(t, parts[p].ops@));
            lemma_kept_sequences(t, parts[p].ops@, info.partial_linearizations@[p]@, k);
        }
        if obeys_concrete_eq::<M::State>() {
            assert forall|p: int, q: Seq<int>, x: int|
                0 <= p < info.partial_linearizations@.len() && #[trigger] is_partial_linearization(
                    info.partition_ops@[p]@,
                    q,
                ) && #[trigger] q.contains(x) implies exists|k: int|
                0 <= k < info.partial_linearizations@[p]@.len()
                    && (#[trigger] info.partial_linearizations@[p]@[k])@.contains(x as usize)
                    && info.partial_linearizations@[p]@[k]@.len() >= q.len() by {
                let t = ts[p];
                assert(info.partition_ops@[p]@ == parts[p].ops@);
                assert(covers_all(parts[p].ops@, t));
                assert(records(t, x, q.len() as int));
                let i = t.slots@[x]->0;
                lemma_named_in_first_ids(t.slots@, x);
                let k = choose|k: int| 0 <= k < first_ids(t.slots@).len() && first_ids(t.slots@)[k] == i;
                assert(info.partial_linearizations@[p]@[k]@ == t.seqs@[i as int]@);
            }
        }
    }
    (verdict, info)
}


// ---------------------------------------------------------------------------
// Partition builders
// ---------------------------------------------------------------------------

/// The operations of each partition.
pub open spec fn partition_histories<M: Model>(ps: Seq<Partition<M>>) -> Seq<Seq<Operation<M>>> {
    ps.map_values(|p: Partition<M>| p.ops@)
}

/// No part of a split is longer than the whole.
pub proof fn lemma_part_len<T>(whole: Seq<T>, parts: Seq<Seq<T>>, p: int)
    requires
        splits(whole, parts),
        0 <= p < parts.len(),
    ensures
        parts[p].len() <= whole.len(),
{
    parts.lemma_flatten_length_ge_single_element_length(p);
    parts.lemma_flatten_and_flatten_alt_are_equivalent();
    parts.flatten().to_multiset_ensures();
    whole.to_multiset_ensures();
}

/// Split the history as the model does, and lay out each part for the
/// search.
pub fn build_operation_partitions<M: Model>(history: Vec<Operation<M>>) -> (r: Vec<Partition<M>>)
    requires
        history@.len() < usize::MAX / 2,
    ensures
        splits(history@, partition_histories(r@)),
        partition_histories(r@).to_multiset() == M::partition_spec(history@).to_multiset(),
        forall|p: int|
            0 <= p < r@.len() ==> (#[trigger] r@[p]).wf() && r@[p].check_history@.len() + 1
                < usize::MAX,
{
    let ghost h = history@;
    let parts = M::partition_operations(history);
    let ghost pv = parts_view(parts@);
    let mut rest = parts;
    let mut reversed: Vec<Vec<Operation<M>>> = Vec::new();
    while rest.len() > 0
        invariant
            rest@.len() + reversed@.len() == pv.len(),
            forall|j: int| 0 <= j < rest@.len() ==> (#[trigger] rest@[j])@ == pv[j],
            forall|j: int| 0 <= j < reversed@.len() ==> (#[trigger] reversed@[j])@ == pv[pv.len() - 1 - j],
        decreases rest@.len(),
    {
        let part = rest.pop().unwrap();
        reversed.push(part);
    }
    let mut r: Vec<Partition<M>> = Vec::new();
    while reversed.len() > 0
        invariant
            splits(h, pv),
            h == history@,
            pv.to_multiset() == M::partition_spec(h).to_multiset(),
            h.len() < usize::MAX / 2,
            r@.len() + reversed@.len() == pv.len(),
            forall|j: int| 0 <= j < reversed@.len() ==> (#[trigger] reversed@[j])@ == pv[pv.len() - 1 - j],
            forall|q: int| 0 <= q < r@.len() ==> (#[trigger] r@[q]).ops@ == pv[q],
            forall|q: int|
                0 <= q < r@.len() ==> (#[trigger] r@[q]).wf() && r@[q].check_history@.len() + 1
                    < usize::MAX,
        decreases reversed@.len(),
    {
        let ghost q = r@.len() as int;
        let part = reversed.pop().unwrap();
        proof {
            lemma_part_len(h, pv, q);
        }
        let p = Partition::from_operations(part);
        r.push(p);
    }
    proof {
        assert(partition_histories(r@) =~= pv);
    }
    r
}


/// Every element of `b` is an element of `a`, when the two have the same
/// elements, each as often.
pub proof fn lemma_permutation_members<T>(a: Seq<T>, b: Seq<T>, j: int) -> (i: int)
    requires
        a.to_multiset() == b.to_multiset(),
        0 <= j < b.len(),
    ensures
        0 <= i < a.len(),
        a[i] == b[j],
{
    a.to_multiset_ensures();
    b.to_multiset_ensures();
    assert(b.contains(b[j]));
    assert(a.to_multiset().count(b[j]) > 0);
    choose|i: int| 0 <= i < a.len() && a[i] == b[j]
}

/// The same parts, in any order, are all linearizable alike.
pub proof fn lemma_all_linearizable_permutation<M: Model>(a: Seq<Seq<Operation<M>>>, b: Seq<Seq<Operation<M>>>)
    requires
        a.to_multiset() == b.to_multiset(),
    ensures
        all_linearizable(a) == all_linearizable(b),
{
    if all_linearizable(a) {
        assert forall|j: int| 0 <= j < b.len() implies linearizable(#[trigger] b[j]) by {
            let i = lemma_permutation_members(a, b, j);
        }
    }
    if all_linearizable(b) {
        assert forall|i: int| 0 <= i < a.len() implies linearizable(#[trigger] a[i]) by {
            let j = lemma_permutation_members(b, a, i);
        }
    }
}

/// The same parts, in any order, are all well-formed alike, and all
/// well-formed and linearizable alike.
pub proof fn lemma_all_events_permutation<M: EventModel>(a: Seq<Seq<Event<M>>>, b: Seq<Seq<Event<M>>>)
    requires
        a.to_multiset() == b.to_multiset(),
    ensures
        all_events_wf(a) == all_events_wf(b),
        all_events_linearizable(a) == all_events_linearizable(b),
{
    if all_events_wf(a) {
        assert forall|j: int| 0 <= j < b.len() implies events_wf(#[trigger] b[j]) by {
            let i = lemma_permutation_members(a, b, j);
        }
    }
    if all_events_wf(b) {
        assert forall|i: int| 0 <= i < a.len() implies events_wf(#[trigger] a[i]) by {
            let j = lemma_permutation_members(b, a, i);
        }
    }
    if all_events_linearizable(a) {
        assert forall|j: int| 0 <= j < b.len() implies events_wf(#[trigger] b[j]) && linearizable(
            events_to_ops(b[j]),
        ) by {
            let i = lemma_permutation_members(a, b, j);
        }
    }
    if all_events_linearizable(b) {
        assert forall|i: int| 0 <= i < a.len() implies events_wf(#[trigger] a[i]) && linearizable(
            events_to_ops(a[i]),
        ) by {
            let j = lemma_permutation_members(b, a, i);
        }
    }
}

/// Every part is linearizable.
pub open spec fn all_linearizable<M: Model>(parts: Seq<Seq<Operation<M>>>) -> bool {
    forall|p: int| 0 <= p < parts.len() ==> linearizable(#[trigger] parts[p])
}

/// An element of a part is an element of the flattened parts.
pub proof fn lemma_flatten_contains<T>(parts: Seq<Seq<T>>, p: int, k: int)
    requires
        0 <= p < parts.len(),
        0 <= k < parts[p].len(),
    ensures
        parts.flatten().contains(parts[p][k]),
    decreases parts.len(),
{
    let f = parts.flatten();
    assert(f == parts.first() + parts.drop_first().flatten());
    if p == 0 {
        assert(f[k] == parts[p][k]);
    } else {
        assert(parts.drop_first()[p - 1] == parts[p]);
        lemma_flatten_contains(parts.drop_first(), p - 1, k);
        let rest = parts.drop_first().flatten();
        let j = choose|j: int| 0 <= j < rest.len() && rest[j] == parts[p][k];
        assert(f[parts.first().len() + j] == parts[p][k]);
    }
}

/// An element of a part of a split is an element of the whole.
pub proof fn lemma_split_contains<T>(whole: Seq<T>, parts: Seq<Seq<T>>, p: int, k: int)
    requires
        splits(whole, parts),
        0 <= p < parts.len(),
        0 <= k < parts[p].len(),
    ensures
        whole.contains(parts[p][k]),
{
    lemma_flatten_contains(parts, p, k);
    parts.flatten().to_multiset_ensures();
    whole.to_multiset_ensures();
    let x = parts[p][k];
    assert(parts.flatten().to_multiset().count(x) > 0);
    assert(whole.to_multiset().count(x) > 0);
}

/// A part of a well-formed event history whose calls and returns pair up is
/// well-formed too: its pairs are pairs of the history.
pub proof fn lemma_part_wf<M: EventModel>(whole: Seq<Event<M>>, parts: Seq<Seq<Event<M>>>, p: int)
    requires
        events_wf(whole),
        splits(whole, parts),
        0 <= p < parts.len(),
        events_paired(parts[p]),
    ensures
        events_wf(parts[p]),
{
    let part = parts[p];
    assert forall|a: int, b: int|
        0 <= a < b < part.len() && (#[trigger] part[a]).event_id() == (#[trigger] part[b]).event_id()
            implies M::combines(crate::model::input_of(part[a]), crate::model::output_of(part[b])) by {
        lemma_split_contains(whole, parts, p, a);
        lemma_split_contains(whole, parts, p, b);
        let i = choose|i: int| 0 <= i < whole.len() && whole[i] == part[a];
        let j = choose|j: int| 0 <= j < whole.len() && whole[j] == part[b];
        assert(part[a] is Call && part[b] is Return);
        if j < i {
            assert(whole[j].event_id() == whole[i].event_id());
            assert(whole[j] is Call);
        }
        assert(i != j);
        assert(whole[i].event_id() == whole[j].event_id());
    }
}

/// Every part is a well-formed event history whose operations are
/// linearizable.
pub open spec fn all_events_linearizable<M: EventModel>(parts: Seq<Seq<Event<M>>>) -> bool {
    forall|p: int|
        0 <= p < parts.len() ==> events_wf(#[trigger] parts[p]) && linearizable(events_to_ops(parts[p]))
}

/// Every part is a well-formed event history.
pub open spec fn all_events_wf<M: EventModel>(parts: Seq<Seq<Event<M>>>) -> bool {
    forall|p: int| 0 <= p < parts.len() ==> events_wf(#[trigger] parts[p])
}

/// The partitions hold the operations of the parts.
pub open spec fn holds_parts<M: EventModel>(ps: Seq<Partition<M>>, parts: Seq<Seq<Event<M>>>) -> bool {
    &&& ps.len() == parts.len()
    &&& forall|p: int| 0 <= p < ps.len() ==> (#[trigger] ps[p]).ops@ == events_to_ops(parts[p])
}

/// Split the event history as the model does, and lay out each part for
/// the search.  `None` when the model split a call from its return.
pub fn build_event_partitions<M: EventModel>(history: Vec<Event<M>>) -> (r: Option<Vec<Partition<M>>>)
    requires
        events_wf(history@),
        history@.len() < usize::MAX / 2,
    ensures
        r is None <==> !all_events_wf(M::partition_events_spec(history@)),
        r matches Some(ps) ==> {
            &&& exists|parts: Seq<Seq<Event<M>>>|
                #[trigger] splits(history@, parts) && parts.to_multiset() == M::partition_events_spec(
                    history@,
                ).to_multiset() && all_events_wf(parts) && holds_parts(ps@, parts)
            &&& forall|p: int|
                0 <= p < ps@.len() ==> (#[trigger] ps@[p]).wf() && ps@[p].check_history@.len() + 1
                    < usize::MAX
        },
{
    let ghost h = history@;
    let parts = M::partition_events(history);
    let ghost pv = parts_view(parts@);
    let mut rest = parts;
    let mut reversed: Vec<Vec<Event<M>>> = Vec::new();
    while rest.len() > 0
        invariant
            rest@.len() + reversed@.len() == pv.len(),
            forall|j: int| 0 <= j < rest@.len() ==> (#[trigger] rest@[j])@ == pv[j],
            forall|j: int| 0 <= j < reversed@.len() ==> (#[trigger] reversed@[j])@ == pv[pv.len() - 1 - j],
        decreases rest@.len(),
    {
        let part = rest.pop().unwrap();
        reversed.push(part);
    }
    let mut r: Vec<Partition<M>> = Vec::new();
    while reversed.len() > 0
        invariant
            h == history@,
            splits(h, pv),
            pv.to_multiset() == M::partition_events_spec(h).to_multiset(),
            events_wf(h),
            h.len() < usize::MAX / 2,
            r@.len() + reversed@.len() == pv.len(),
            forall|j: int| 0 <= j < reversed@.len() ==> (#[trigger] reversed@[j])@ == pv[pv.len() - 1 - j],
            forall|q: int| 0 <= q < r@.len() ==> (#[trigger] r@[q]).ops@ == events_to_ops(pv[q]),
            forall|q: int| 0 <= q < r@.len() ==> events_wf(#[trigger] pv[q]),
            forall|q: int|
                0 <= q < r@.len() ==> (#[trigger] r@[q]).wf() && r@[q].check_history@.len() + 1
                    < usize::MAX,
        decreases reversed@.len(),
    {
        let ghost q = r@.len() as int;
        let part = reversed.pop().unwrap();
        if !events_are_paired(&part) {
            proof {
                assert(!events_wf(pv[q]));
                assert(!all_events_wf(pv));
                lemma_all_events_permutation(pv, M::partition_events_spec(h));
            }
            return None;
        }
        proof {
            lemma_part_wf(h, pv, q);
            lemma_part_len(h, pv, q);
        }
        let p = Partition::from_events(part);
        r.push(p);
    }
    proof {
        assert(all_events_wf(pv));
        assert(holds_parts(r@, pv));
        lemma_all_events_permutation(pv, M::partition_events_spec(h));
    }
    Some(r)
}

} // verus!
