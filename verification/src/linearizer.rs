//! The depth-first search for a linearization of one partition: lift an
//! operation whose call comes before every pending return, and backtrack
//! when a return is reached.
use crate::bitset::{lemma_words_for_capacity, words_for, Bitset};
use crate::cache::Cache;
use crate::history::{
    dead_end, extendable, is_linearization, is_minimal, is_partial_linearization, lemma_path_runs, precedes,
    lemma_prefix_set_empty, lemma_prefix_set_step, path_steps, prefix_set,
};
use crate::model::{Model, Operation};
use crate::partition::{
    call_entry, lemma_sorted_injective, return_entry, CheckEntry, Partition,
};
use crate::skip_list::{
    lemma_remove_contains, lemma_remove_pair, lemma_restore_pair, links,
    pred_of, remove_links, restore_links, sorted_below, succ_of, SkipList,
};
use vstd::laws_eq::obeys_concrete_eq;
use vstd::prelude::*;

verus! {

pub struct Frame<S> {
    /// Position in `check_history` of the lifted Call entry.
    pub history_pos: usize,
    /// Index into `partition.ops`; equals the operation's bitset index.
    pub op_index: usize,
    /// Model state before the lift — restored on backtrack.
    pub prior_state: S,
}

/// The longest partial linearizations recorded for each operation.
///
/// A recorded sequence is stored once in `seqs`; `slots[i]` names the
/// sequence recorded for operation `i`, and operations that were recorded
/// together share it.
pub struct LongestTable {
    pub seqs: Vec<Vec<usize>>,
    pub slots: Vec<Option<usize>>,
}

impl LongestTable {
    /// Every slot names a recorded sequence.
    pub open spec fn wf(&self) -> bool {
        forall|i: int|
            0 <= i < self.slots@.len() && #[trigger] self.slots@[i] is Some ==> self.slots@[i]->0
                < self.seqs@.len()
    }

    /// A table with `m` empty slots.
    pub fn with_slots(m: usize) -> (t: Self)
        ensures
            t.wf(),
            t.seqs@.len() == 0,
            t.slots@.len() == m,
            forall|i: int| 0 <= i < m ==> t.slots@[i] is None,
    {
        let mut slots: Vec<Option<usize>> = Vec::new();
        let mut i: usize = 0;
        while i < m
            invariant
                i <= m,
                slots@.len() == i,
                forall|j: int| 0 <= j < i ==> slots@[j] is None,
            decreases m - i,
        {
            slots.push(None);
            i = i + 1;
        }
        Self { seqs: Vec::new(), slots }
    }

    /// A table without slots.
    pub fn empty() -> (t: Self)
        ensures
            t.wf(),
            t.seqs@.len() == 0,
            t.slots@.len() == 0,
    {
        Self { seqs: Vec::new(), slots: Vec::new() }
    }
}

impl LongestTable {
    /// The recorded sequences.
    pub open spec fn seqs_view(&self) -> Seq<Seq<usize>> {
        self.seqs@.map_values(|v: Vec<usize>| v@)
    }
}

/// The entries of `s` as integers.
pub open spec fn as_order(s: Seq<usize>) -> Seq<int> {
    s.map_values(|x: usize| x as int)
}

// ---------------------------------------------------------------------------
// Linearizer
// ---------------------------------------------------------------------------

pub struct Linearizer<'a, M: Model> {
    partition: &'a Partition<M>,
    call_pos: Vec<usize>,
    ret_pos: Vec<usize>,
    sl: SkipList,
    state: M::State,
    linearized: Bitset,
    cache: Cache<M>,
    stack: Vec<Frame<M::State>>,
    compute_info: bool,
    longest: LongestTable,
    /// The active entries at each depth of the search.
    acts: Ghost<Seq<Seq<usize>>>,
    /// Where the call and the return of the operation lifted at each depth
    /// stood among the active entries when they were unlinked.
    cuts: Ghost<Seq<(int, int)>>,
}

impl<'a, M: Model> Linearizer<'a, M> {
    pub closed spec fn ops(&self) -> Seq<Operation<M>> {
        self.partition.ops@
    }

    pub closed spec fn hist(&self) -> Seq<CheckEntry> {
        self.partition.check_history@
    }

    pub closed spec fn n(&self) -> int {
        self.partition.check_history@.len() as int
    }

    pub closed spec fn depth(&self) -> int {
        self.stack@.len() as int
    }

    pub closed spec fn partition_view(&self) -> &'a Partition<M> {
        self.partition
    }

    pub closed spec fn computes_info(&self) -> bool {
        self.compute_info
    }

    pub closed spec fn table(&self) -> LongestTable {
        self.longest
    }

    /// The operations lifted so far, in order.
    pub closed spec fn order(&self) -> Seq<int> {
        Seq::new(self.stack@.len(), |k: int| self.stack@[k].op_index as int)
    }

    /// Where the call of each lifted operation stands in the history.
    pub closed spec fn lifted_positions(&self) -> Seq<usize> {
        Seq::new(self.stack@.len(), |k: int| self.stack@[k].history_pos)
    }

    /// The model state before each lift, and the current state last.
    pub closed spec fn states(&self) -> Seq<M::State> {
        Seq::new(
            self.stack@.len() + 1,
            |k: int|
                if k < self.stack@.len() {
                    self.stack@[k].prior_state
                } else {
                    self.state
                },
        )
    }

    /// The operations lifted at depths below `k`.
    pub open spec fn done_at(&self, k: int) -> Set<int> {
        prefix_set(self.order(), k)
    }

    /// The active entries at depth `k`.
    pub closed spec fn act(&self, k: int) -> Seq<usize> {
        self.acts@[k]
    }

    /// Entry `p` belongs to an operation not lifted at depths below `k`.
    pub open spec fn active(&self, k: int, p: int) -> bool {
        0 <= p < self.n() && !self.done_at(k).contains(self.hist()[p].index() as int)
    }

    /// The hypothesis under which a refusal is definitive: the model's
    /// `equal` decides state equality.
    pub open spec fn exact() -> bool {
        obeys_concrete_eq::<M::State>()
    }

    closed spec fn positions_ok(&self) -> bool {
        let m = self.ops().len();
        &&& self.call_pos@.len() == m
        &&& self.ret_pos@.len() == m
        &&& forall|i: int|
            0 <= i < m ==> {
                &&& #[trigger] self.call_pos@[i] < self.n()
                &&& self.hist()[self.call_pos@[i] as int] == call_entry(self.ops(), i)
            }
        &&& forall|i: int|
            0 <= i < m ==> {
                &&& #[trigger] self.ret_pos@[i] < self.n()
                &&& self.hist()[self.ret_pos@[i] as int] == return_entry(self.ops(), i)
            }
    }

    closed spec fn cut_ok(&self, k: int) -> bool {
        let (a, b) = self.cuts@[k];
        let o = self.order()[k];
        let c = self.call_pos@[o];
        let r = self.ret_pos@[o];
        let act = self.acts@[k];
        let mid = act.remove(a);
        let head = self.n() as usize;
        &&& 0 <= a < act.len()
        &&& act[a] == c
        &&& 0 <= b < mid.len()
        &&& mid[b] == r
        &&& self.acts@[k + 1] == mid.remove(b)
        &&& self.sl.next_seq()[c as int] == succ_of(act, a, head)
        &&& self.sl.prev_seq()[c as int] == pred_of(act, a, head)
        &&& self.sl.next_seq()[r as int] == succ_of(mid, b, head)
        &&& self.sl.prev_seq()[r as int] == pred_of(mid, b, head)
    }

    closed spec fn list_ok(&self) -> bool {
        let d = self.depth();
        &&& self.sl.bounded()
        &&& self.sl.head_index() == self.n()
        &&& self.acts@.len() == d + 1
        &&& self.cuts@.len() == d
        &&& self.sl.links_exactly(self.acts@[d])
        &&& forall|k: int|
            0 <= k <= d ==> {
                &&& sorted_below(#[trigger] self.acts@[k], self.n() as usize)
                &&& forall|p: usize| self.acts@[k].contains(p) <==> self.active(k, p as int)
            }
        &&& forall|k: int| 0 <= k < d ==> #[trigger] self.cut_ok(k)
    }

    /// The lifted operations are distinct operations of the partition.
    closed spec fn order_ok(&self) -> bool {
        let order = self.order();
        forall|k: int|
            0 <= k < order.len() ==> 0 <= #[trigger] order[k] < self.ops().len() && !prefix_set(
                order,
                k,
            ).contains(order[k])
    }

    /// Each lifted operation could be linearized next when it was lifted,
    /// and the model accepted it into the next state on the stack.
    pub closed spec fn path_ok(&self) -> bool {
        path_steps(self.ops(), self.order(), self.states())
    }

    closed spec fn stack_ok(&self) -> bool {
        let d = self.depth();
        &&& d <= self.ops().len()
        &&& forall|k: int|
            0 <= k < d ==> #[trigger] self.stack@[k].history_pos
                == self.call_pos@[self.stack@[k].op_index as int]
        &&& self.order_ok()
        &&& self.states()[0] == M::init_spec()
        &&& self.linearized.wf()
        &&& self.linearized.len() == self.ops().len()
        &&& self.linearized@ == self.done_at(d)
    }

    /// Every recorded sequence is a partial linearization.
    pub open spec fn info_ok(&self) -> bool {
        let t = self.table();
        &&& t.wf()
        &&& self.computes_info() ==> t.slots@.len() == self.ops().len()
        &&& forall|i: int|
            0 <= i < t.seqs@.len() ==> is_partial_linearization(
                self.ops(),
                as_order(#[trigger] t.seqs@[i]@),
            )
    }

    /// The pair of lifted set and state at depth `k`, for some `k >= 1`.
    pub open spec fn on_stack(&self, set: Set<int>, s: M::State) -> bool {
        exists|k: int| 1 <= k <= self.depth() && set == self.done_at(k) && s == #[trigger] self.states()[k]
    }

    /// Every recorded pair is on the stack or cannot be completed.
    pub closed spec fn cache_ok(&self) -> bool {
        Self::exact() ==> forall|set: Set<int>, s: M::State| #[trigger]
            self.cache.holds(set, s) ==> self.on_stack(set, s) || !extendable(self.ops(), set, s)
    }

    /// At every depth below the current one, the active entries before the
    /// lifted call are calls that lead nowhere.
    pub closed spec fn tried_ok(&self) -> bool {
        forall|k: int, p: usize|
            0 <= k < self.depth() && #[trigger] self.acts@[k].contains(p) && p
                < self.stack@[k].history_pos ==> {
                &&& self.hist()[p as int] is Call
                &&& Self::exact() ==> dead_end(
                    self.ops(),
                    self.done_at(k),
                    self.states()[k],
                    self.hist()[p as int].index() as int,
                )
            }
    }

    /// The fields of the search agree with one another: the stack, the
    /// active entries and the lifted set describe the same lifts.
    pub closed spec fn inv_shape(&self) -> bool {
        &&& self.partition.wf()
        &&& self.n() + 1 < usize::MAX
        &&& self.positions_ok()
        &&& self.stack_ok()
        &&& self.list_ok()
        &&& self.info_ok()
        &&& self.cache.wf()
        &&& self.cache.all_len(self.ops().len())
    }

    /// The search state is consistent, and the stack is a partial
    /// linearization.
    pub open spec fn inv_core(&self) -> bool {
        &&& self.inv_shape()
        &&& self.path_ok()
    }

    /// Like `cache_ok`, with one more recorded pair that is about to be
    /// lifted.
    pub closed spec fn cache_ok_pending(&self, set0: Set<int>, s0: M::State) -> bool {
        Self::exact() ==> forall|set: Set<int>, s: M::State| #[trigger]
            self.cache.holds(set, s) ==> self.on_stack(set, s) || !extendable(self.ops(), set, s)
                || (set == set0 && s == s0)
    }

    /// The cache holds the pair `(set, s)`.
    pub closed spec fn cached(&self, set: Set<int>, s: M::State) -> bool {
        self.cache.holds(set, s)
    }

    /// Everything but the cache is as in `o`.
    pub closed spec fn same_search(&self, o: &Self) -> bool {
        &&& self.partition == o.partition
        &&& self.call_pos == o.call_pos
        &&& self.ret_pos == o.ret_pos
        &&& self.sl == o.sl
        &&& self.state == o.state
        &&& self.stack == o.stack
        &&& self.compute_info == o.compute_info
        &&& self.longest == o.longest
        &&& self.acts == o.acts
        &&& self.cuts == o.cuts
        &&& self.linearized.wf() == o.linearized.wf()
        &&& self.linearized.len() == o.linearized.len()
        &&& self.linearized@ == o.linearized@
    }

    /// Everything but the table of recorded sequences is as in `o`.
    pub closed spec fn same_except_table(&self, o: &Self) -> bool {
        &&& self.partition == o.partition
        &&& self.call_pos == o.call_pos
        &&& self.ret_pos == o.ret_pos
        &&& self.sl == o.sl
        &&& self.state == o.state
        &&& self.stack == o.stack
        &&& self.compute_info == o.compute_info
        &&& self.cache == o.cache
        &&& self.acts == o.acts
        &&& self.cuts == o.cuts
        &&& self.linearized == o.linearized
    }

    pub open spec fn inv(&self) -> bool {
        &&& self.inv_core()
        &&& self.tried_ok()
        &&& self.cache_ok()
    }

    pub fn new(partition: &'a Partition<M>, compute_info: bool) -> (l: Self)
        requires
            partition.wf(),
            partition.check_history@.len() + 1 < usize::MAX,
        ensures
            l.inv(),
            l.depth() == 0,
            l.partition_view() == partition,
            l.computes_info() == compute_info,
            forall|set: Set<int>, s: M::State| !l.cached(set, s),
            l.table().seqs@.len() == 0,
            compute_info ==> forall|i: int|
                0 <= i < l.table().slots@.len() ==> l.table().slots@[i] is None,
            !compute_info ==> l.table().slots@.len() == 0,
    {
        let n = partition.check_history.len();
        let m = partition.ops.len();
        let ghost h = partition.check_history@;
        let ghost ops = partition.ops@;

        let mut call_pos: Vec<usize> = vec![0usize; m];
        let mut ret_pos: Vec<usize> = vec![0usize; m];
        let mut pos: usize = 0;
        while pos < n
            invariant
                pos <= n,
                n == h.len(),
                m == ops.len(),
                h == partition.check_history@,
                ops == partition.ops@,
                partition.wf(),
                call_pos@.len() == m,
                ret_pos@.len() == m,
                forall|q: int|
                    0 <= q < pos && #[trigger] h[q] is Call ==> call_pos@[h[q].index() as int] == q,
                forall|q: int|
                    0 <= q < pos && #[trigger] h[q] is Return ==> ret_pos@[h[q].index() as int] == q,
            decreases n - pos,
        {
            let entry = partition.check_history[pos];
            let idx = entry.op_index();
            proof {
                assert(crate::partition::entry_of(ops, h[pos as int]));
            }
            match entry {
                CheckEntry::Call { .. } => {
                    proof {
                        assert forall|q: int| 0 <= q < pos && #[trigger] h[q] is Call implies h[q].index()
                            != idx by {
                            if h[q].index() == idx {
                                assert(crate::partition::entry_of(ops, h[q]));
                                lemma_sorted_injective(h, q, pos as int);
                            }
                        }
                    }
                    call_pos.set(idx, pos);
                },
                CheckEntry::Return { .. } => {
                    proof {
                        assert forall|q: int| 0 <= q < pos && #[trigger] h[q] is Return implies h[q].index()
                            != idx by {
                            if h[q].index() == idx {
                                assert(crate::partition::entry_of(ops, h[q]));
                                lemma_sorted_injective(h, q, pos as int);
                            }
                        }
                    }
                    ret_pos.set(idx, pos);
                },
            }
            pos = pos + 1;
        }
        proof {
            assert forall|i: int| 0 <= i < m implies #[trigger] call_pos@[i] < n && h[call_pos@[i] as int]
                == call_entry(ops, i) by {
                assert(h.contains(call_entry(ops, i)));
                let p = choose|p: int| 0 <= p < h.len() && h[p] == call_entry(ops, i);
                assert(h[p] is Call);
            }
            assert forall|i: int| 0 <= i < m implies #[trigger] ret_pos@[i] < n && h[ret_pos@[i] as int]
                == return_entry(ops, i) by {
                assert(h.contains(return_entry(ops, i)));
                let p = choose|p: int| 0 <= p < h.len() && h[p] == return_entry(ops, i);
                assert(h[p] is Return);
            }
        }
        let longest = if compute_info {
            LongestTable::with_slots(m)
        } else {
            LongestTable::empty()
        };
        let ghost acts0 = seq![Seq::new(n as nat, |k: int| k as usize)];
        let ghost cuts0 = Seq::<(int, int)>::empty();
        let l = Self {
            partition,
            call_pos,
            ret_pos,
            sl: SkipList::new(n),
            state: M::init(),
            linearized: Bitset::new(m),
            cache: Cache::new(),
            stack: Vec::new(),
            compute_info,
            longest,
            acts: Ghost(acts0),
            cuts: Ghost(cuts0),
        };
        proof {
            lemma_prefix_set_empty(l.order());
            assert(l.order() =~= Seq::<int>::empty());
            assert(l.acts@[0] == Seq::new(n as nat, |k: int| k as usize));
            assert forall|p: usize| l.acts@[0].contains(p) <==> l.active(0, p as int) by {
                if 0 <= p < n {
                    assert(l.acts@[0][p as int] == p);
                }
            }
            assert(l.stack_ok());
            assert(l.list_ok());
            assert(l.positions_ok());
        }
        l
    }



    /// The consistency of the search does not depend on the cache.
    proof fn lemma_same_search(&self, o: Self)
        requires
            self.same_search(&o),
            o.inv_shape(),
            self.cache.wf(),
            self.cache.all_len(self.ops().len()),
        ensures
            self.inv_shape(),
            o.path_ok() ==> self.path_ok(),
            o.tried_ok() ==> self.tried_ok(),
            self.states() == o.states(),
            self.order() == o.order(),
            self.lifted_positions() == o.lifted_positions(),
            self.depth() == o.depth(),
            forall|k: int| 0 <= k <= o.depth() ==> self.act(k) == o.act(k),
            self.partition_view() == o.partition_view(),
            self.computes_info() == o.computes_info(),
            self.table() == o.table(),
    {
        assert(self.lifted_positions() =~= o.lifted_positions());
        assert(self.order() =~= o.order());
        assert(self.states() =~= o.states());
        assert forall|k: int| 0 <= k <= self.depth() implies self.done_at(k) == o.done_at(k) by {}
        assert forall|k: int| 0 <= k < self.depth() implies #[trigger] self.cut_ok(k) by {
            assert(o.cut_ok(k));
        }
        assert forall|k: int| 0 <= k <= self.depth() implies {
            &&& sorted_below(#[trigger] self.acts@[k], self.n() as usize)
            &&& forall|p: usize| self.acts@[k].contains(p) <==> self.active(k, p as int)
        } by {
            assert(sorted_below(o.acts@[k], o.n() as usize));
            assert forall|p: usize| self.acts@[k].contains(p) <==> self.active(k, p as int) by {
                assert(o.acts@[k].contains(p) <==> o.active(k, p as int));
            }
        }
        assert(self.list_ok());
    }

    /// The consistency of the search does not depend on the table, as long as
    /// the table records partial linearizations.
    proof fn lemma_same_except_table(&self, o: Self)
        requires
            self.same_except_table(&o),
            o.inv(),
            self.info_ok(),
        ensures
            self.inv(),
            self.order() == o.order(),
            self.states() == o.states(),
            self.lifted_positions() == o.lifted_positions(),
    {
        assert(self.order() =~= o.order());
        assert(self.states() =~= o.states());
        assert(self.lifted_positions() =~= o.lifted_positions());
        assert forall|k: int| 0 <= k <= self.depth() implies self.done_at(k) == o.done_at(k) by {}
        assert forall|k: int| 0 <= k < self.depth() implies #[trigger] self.cut_ok(k) by {
            assert(o.cut_ok(k));
        }
        assert forall|k: int| 0 <= k <= self.depth() implies {
            &&& sorted_below(#[trigger] self.acts@[k], self.n() as usize)
            &&& forall|p: usize| self.acts@[k].contains(p) <==> self.active(k, p as int)
        } by {
            assert(sorted_below(o.acts@[k], o.n() as usize));
            assert forall|p: usize| self.acts@[k].contains(p) <==> self.active(k, p as int) by {
                assert(o.acts@[k].contains(p) <==> o.active(k, p as int));
            }
        }
        assert(self.list_ok());
        assert(self.cache_ok()) by {
            if Self::exact() {
                assert forall|set: Set<int>, s: M::State| #[trigger]
                    self.cache.holds(set, s) implies self.on_stack(set, s) || !extendable(
                    self.ops(),
                    set,
                    s,
                ) by {
                    assert(o.cache.holds(set, s));
                    if o.on_stack(set, s) {
                        let k = choose|k: int|
                            1 <= k <= o.depth() && set == o.done_at(k) && s == #[trigger] o.states()[k];
                        assert(self.states()[k] == s);
                    }
                }
            }
        }
        if o.tried_ok() {
            assert forall|k: int, p: usize|
                0 <= k < self.depth() && #[trigger] self.acts@[k].contains(p) && p
                    < self.stack@[k].history_pos implies {
                &&& self.hist()[p as int] is Call
                &&& Self::exact() ==> dead_end(
                    self.ops(),
                    self.done_at(k),
                    self.states()[k],
                    self.hist()[p as int].index() as int,
                )
            } by {
                assert(o.acts@[k].contains(p));
            }
        }
    }

    /// The lifted sets at the depths of the stack have as many elements as
    /// the depth, so a set with one more element is none of them.
    proof fn lemma_not_on_stack(&self, set: Set<int>, s: M::State)
        requires
            self.inv_shape(),
            set.finite(),
            set.len() == self.depth() + 1,
        ensures
            !self.on_stack(set, s),
    {
        if self.on_stack(set, s) {
            let k = choose|k: int|
                1 <= k <= self.depth() && set == self.done_at(k) && s == #[trigger] self.states()[k];
            crate::history::lemma_prefix_set_len(self.order(), k);
        }
    }

    /// Try to linearize the call at `pos` next: `None` when the model
    /// refuses it or the resulting pair was reached before; otherwise the
    /// pair is recorded in the cache.  The call must be one of an operation
    /// not lifted yet.
    ///
    /// When the cache holds nothing but what is on the stack or cannot be
    /// completed (as the search keeps it), `None` marks a dead end, and a
    /// recorded pair is the only one that may still be completed.
    pub fn try_linearize(&mut self, pos: usize) -> (r: Option<M::State>)
        requires
            old(self).inv_shape(),
            0 <= pos < old(self).n(),
            old(self).hist()[pos as int] is Call,
            old(self).active(old(self).depth(), pos as int),
        ensures
            final(self).same_search(old(self)),
            final(self).inv_shape(),
            old(self).path_ok() ==> final(self).path_ok(),
            old(self).tried_ok() ==> final(self).tried_ok(),
            final(self).states() == old(self).states(),
            final(self).order() == old(self).order(),
            final(self).lifted_positions() == old(self).lifted_positions(),
            final(self).depth() == old(self).depth(),
            forall|k: int| 0 <= k <= old(self).depth() ==> final(self).act(k) == old(self).act(k),
            final(self).partition_view() == old(self).partition_view(),
            final(self).computes_info() == old(self).computes_info(),
            final(self).table() == old(self).table(),
            ({
                let d = old(self).depth();
                let o = old(self).hist()[pos as int].index() as int;
                let (ok, nxt) = M::step_spec(old(self).states()[d], old(self).ops()[o].op);
                match r {
                    None => old(self).cache_ok() ==> final(self).cache_ok() && (Self::exact() ==> dead_end(
                        old(self).ops(),
                        old(self).done_at(d),
                        old(self).states()[d],
                        o,
                    )),
                    Some(s) => ok && s == nxt && (old(self).cache_ok() ==> final(self).cache_ok_pending(
                        old(self).done_at(d).insert(o),
                        s,
                    )),
                }
            }),
            ({
                let d = old(self).depth();
                let o = old(self).hist()[pos as int].index() as int;
                let (ok, nxt) = M::step_spec(old(self).states()[d], old(self).ops()[o].op);
                let set1 = old(self).done_at(d).insert(o);
                &&& !ok ==> r is None
                &&& ok && Self::exact() ==> (r is None <==> old(self).cached(set1, nxt))
                &&& !old(self).on_stack(set1, nxt)
                &&& r is None ==> forall|set: Set<int>, s: M::State|
                    #[trigger] final(self).cached(set, s) == old(self).cached(set, s)
                &&& r is Some ==> forall|set: Set<int>, s: M::State| #[trigger]
                    final(self).cached(set, s) <==> old(self).cached(set, s) || (set == set1 && s == nxt)
            }),
    {
        let ghost d = self.depth();
        let op_index = self.partition.check_history[pos].op_index();
        proof {
            assert(crate::partition::entry_of(self.ops(), self.hist()[pos as int]));
            lemma_words_for_capacity(self.ops().len());
            crate::history::lemma_prefix_set_len(self.order(), d);
        }
        let (accepted, next_state) = M::step(&self.state, &self.partition.ops[op_index].op);
        proof {
            assert(self.states()[d] == self.state);
            self.lemma_not_on_stack(self.done_at(d).insert(op_index as int), next_state);
        }
        if !accepted {
            return None;
        }
        // Temporarily mark the bit so we can probe the cache with the
        // would-be linearized set.
        let ghost before = self.linearized@;
        self.linearized.set(op_index);
        let ghost with_op = self.linearized@;
        if self.cache.cache_contains(&self.linearized, &next_state) {
            self.linearized.clear(op_index);
            proof {
                assert(self.linearized@ =~= before);
                self.lemma_same_search(*old(self));
            }
            return None;
        }
        // Cache miss: record the pair.  The cache keeps a state of its own,
        // which a second application of the (pure) step function provides.
        let (_, cached_state) = M::step(&self.state, &self.partition.ops[op_index].op);
        let snapshot = self.linearized.copy();
        self.cache.cache_insert(snapshot, cached_state);
        self.linearized.clear(op_index);
        proof {
            assert(self.linearized@ =~= before);
            self.lemma_same_search(*old(self));
        }
        Some(next_state)
    }


    /// The entry at `p` belongs to operation `o` exactly when it is the
    /// call or the return of `o`.
    proof fn lemma_entry_owner(&self, p: int, o: int)
        requires
            self.inv_shape(),
            0 <= p < self.n(),
            0 <= o < self.ops().len(),
        ensures
            (self.hist()[p].index() == o) <==> (p == self.call_pos@[o] || p == self.ret_pos@[o]),
    {
        let h = self.hist();
        assert(crate::partition::entry_of(self.ops(), h[p]));
        assert(h[self.call_pos@[o] as int] == call_entry(self.ops(), o));
        assert(h[self.ret_pos@[o] as int] == return_entry(self.ops(), o));
        if h[p].index() == o {
            if h[p] == call_entry(self.ops(), o) {
                lemma_sorted_injective(h, p, self.call_pos@[o] as int);
            } else {
                lemma_sorted_injective(h, p, self.ret_pos@[o] as int);
            }
        }
    }

    /// How the fields change when the call at `pos`, of operation `op`, is
    /// lifted from `o`.
    closed spec fn lift_step(&self, o: Self, pos: usize, op: int, next_state: M::State) -> bool {
        &&& self.partition == o.partition
        &&& self.call_pos == o.call_pos
        &&& self.ret_pos == o.ret_pos
        &&& self.stack@ == o.stack@.push(
            Frame { history_pos: pos, op_index: op as usize, prior_state: o.state },
        )
        &&& self.state == next_state
        &&& self.linearized.wf()
        &&& self.linearized.len() == o.linearized.len()
        &&& self.linearized@ == o.linearized@.insert(op)
        &&& self.cache == o.cache
        &&& self.longest == o.longest
        &&& self.compute_info == o.compute_info
        &&& self.sl.head_index() == o.sl.head_index()
        &&& self.sl.bounded()
    }

    proof fn lemma_lift_order(&self, o: Self, pos: usize, op: int, next_state: M::State)
        requires
            self.lift_step(o, pos, op, next_state),
            0 <= op <= usize::MAX,
        ensures
            self.order() == o.order().push(op),
            self.states() == o.states().push(next_state),
            self.lifted_positions() == o.lifted_positions().push(pos),
            forall|k: int| 0 <= k <= o.depth() ==> self.done_at(k) == o.done_at(k),
            self.done_at(o.depth() + 1) == o.done_at(o.depth()).insert(op),
            self.depth() == o.depth() + 1,
    {
        let d = o.depth();
        assert(self.order() =~= o.order().push(op));
        assert(self.states() =~= o.states().push(next_state));
        assert(self.lifted_positions() =~= o.lifted_positions().push(pos));
        assert forall|k: int| 0 <= k <= d implies self.done_at(k) == o.done_at(k) by {
            crate::history::lemma_prefix_set_agree(self.order(), o.order(), k);
        }
        lemma_prefix_set_step(self.order(), d);
    }

    proof fn lemma_lift_cut(&self, o: Self, pos: usize, op: int, next_state: M::State, j: int)
        requires
            o.inv_shape(),
            self.lift_step(o, pos, op, next_state),
            0 <= op <= usize::MAX,
            0 <= j < o.depth(),
            self.cuts@[j] == o.cuts@[j],
            self.acts@[j] == o.acts@[j],
            self.acts@[j + 1] == o.acts@[j + 1],
            forall|x: int|
                0 <= x < o.n() && !o.acts@[o.depth()].contains(x as usize) ==> #[trigger]
                    self.sl.next_seq()[x] == o.sl.next_seq()[x] && self.sl.prev_seq()[x]
                    == o.sl.prev_seq()[x],
        ensures
            self.cut_ok(j),
    {
        let d = o.depth();
        self.lemma_lift_order(o, pos, op, next_state);
        assert(o.cut_ok(j));
        let oj = o.order()[j];
        assert(self.order()[j] == oj);
        let cj = o.call_pos@[oj];
        let rj = o.ret_pos@[oj];
        let act = o.acts@[d];
        assert(o.done_at(d).contains(oj)) by {
            assert(o.order()[j] == oj);
        }
        assert(!act.contains(cj)) by {
            assert(act.contains(cj) <==> o.active(d, cj as int));
            o.lemma_entry_owner(cj as int, oj);
        }
        assert(!act.contains(rj)) by {
            assert(act.contains(rj) <==> o.active(d, rj as int));
            o.lemma_entry_owner(rj as int, oj);
        }
        assert(self.sl.next_seq()[cj as int] == o.sl.next_seq()[cj as int]);
        assert(self.sl.next_seq()[rj as int] == o.sl.next_seq()[rj as int]);
    }

    proof fn lemma_lift_lists(
        &self,
        o: Self,
        pos: usize,
        op: int,
        next_state: M::State,
        a: int,
        b: int,
        next1: Seq<usize>,
        prev1: Seq<usize>,
    )
        requires
            o.inv_shape(),
            self.lift_step(o, pos, op, next_state),
            0 <= op < o.ops().len(),
            0 <= a < o.acts@[o.depth()].len(),
            o.acts@[o.depth()][a] == o.call_pos@[op],
            0 <= b < o.acts@[o.depth()].remove(a).len(),
            o.acts@[o.depth()].remove(a)[b] == o.ret_pos@[op],
            self.acts@ == o.acts@.push(o.acts@[o.depth()].remove(a).remove(b)),
            self.cuts@ == o.cuts@.push((a, b)),
            (next1, prev1) == remove_links(
                o.sl.next_seq(),
                o.sl.prev_seq(),
                o.call_pos@[op] as int,
            ),
            (self.sl.next_seq(), self.sl.prev_seq()) == remove_links(
                next1,
                prev1,
                o.ret_pos@[op] as int,
            ),
        ensures
            self.list_ok(),
    {
        let d = o.depth();
        let act = o.acts@[d];
        let mid = act.remove(a);
        let act2 = mid.remove(b);
        let n = o.n() as usize;
        self.lemma_lift_order(o, pos, op, next_state);
        lemma_remove_pair(o.sl.next_seq(), o.sl.prev_seq(), n, act, a, b);
        assert forall|p: usize| act2.contains(p) <==> self.active(d + 1, p as int) by {
            lemma_remove_contains(act, n, a, p);
            lemma_remove_contains(mid, n, b, p);
            if (p as int) < o.n() {
                o.lemma_entry_owner(p as int, op);
            }
            assert(act.contains(p) <==> o.active(d, p as int));
        }
        assert forall|k: int| 0 <= k < d implies #[trigger] self.cut_ok(k) by {
            self.lemma_lift_cut(o, pos, op, next_state, k);
        }
        assert(self.cut_ok(d));
        assert forall|k: int| 0 <= k <= d + 1 implies {
            &&& sorted_below(#[trigger] self.acts@[k], self.n() as usize)
            &&& forall|p: usize| self.acts@[k].contains(p) <==> self.active(k, p as int)
        } by {
            if k <= d {
                assert(self.acts@[k] == o.acts@[k]);
                assert(sorted_below(o.acts@[k], n));
                assert forall|p: usize| self.acts@[k].contains(p) <==> self.active(k, p as int) by {
                    assert(o.acts@[k].contains(p) <==> o.active(k, p as int));
                }
            } else {
                lemma_remove_contains(act, n, a, 0);
                lemma_remove_contains(mid, n, b, 0);
            }
        }
    }

    proof fn lemma_lift_stack(&self, o: Self, pos: usize, op: int, next_state: M::State)
        requires
            o.inv_shape(),
            self.lift_step(o, pos, op, next_state),
            pos == o.call_pos@[op],
            0 <= op < o.ops().len(),
            !o.done_at(o.depth()).contains(op),
        ensures
            self.stack_ok(),
            o.path_ok() && is_minimal(o.ops(), o.done_at(o.depth()), op) && M::step_spec(
                o.states()[o.depth()],
                o.ops()[op].op,
            ) == (true, next_state) ==> self.path_ok(),
    {
        let d = o.depth();
        let new_order = self.order();
        self.lemma_lift_order(o, pos, op, next_state);
        assert forall|k: int| 0 <= k < d + 1 implies #[trigger] self.stack@[k].history_pos
            == self.call_pos@[self.stack@[k].op_index as int] by {
            if k < d {
                assert(self.stack@[k] == o.stack@[k]);
            }
        }
        assert(self.order_ok()) by {
            assert forall|k: int| 0 <= k < new_order.len() implies 0 <= #[trigger] new_order[k]
                < self.ops().len() && !prefix_set(new_order, k).contains(new_order[k]) by {
                if k < d {
                    assert(new_order[k] == o.order()[k]);
                    assert(prefix_set(new_order, k) == o.done_at(k));
                }
            }
        }
        if o.path_ok() && is_minimal(o.ops(), o.done_at(o.depth()), op) && M::step_spec(
            o.states()[o.depth()],
            o.ops()[op].op,
        ) == (true, next_state) {
            assert forall|k: int| 0 <= k < new_order.len() implies {
                &&& 0 <= #[trigger] new_order[k] < self.ops().len()
                &&& !prefix_set(new_order, k).contains(new_order[k])
                &&& is_minimal(self.ops(), prefix_set(new_order, k), new_order[k])
                &&& M::step_spec(self.states()[k], self.ops()[new_order[k]].op) == (
                    true,
                    self.states()[k + 1],
                )
            } by {
                if k < d {
                    assert(new_order[k] == o.order()[k]);
                    assert(prefix_set(new_order, k) == o.done_at(k));
                }
            }
        }
        crate::history::lemma_prefix_set_len(new_order, d + 1);
        crate::history::lemma_indices_len(self.done_at(d + 1), self.ops().len() as int);
    }

    /// Every active entry before `pos` at the current depth is a call that
    /// was found a dead end.
    pub open spec fn dead_ends_before(&self, pos: usize) -> bool {
        let d = self.depth();
        forall|q: usize|
            #[trigger] self.act(d).contains(q) && q < pos ==> {
                &&& self.hist()[q as int] is Call
                &&& Self::exact() ==> dead_end(
                    self.ops(),
                    self.done_at(d),
                    self.states()[d],
                    self.hist()[q as int].index() as int,
                )
            }
    }

    /// Lift the call at `pos`: the model moves to `next_state`, the call and
    /// the return of its operation leave the active entries, and the search
    /// goes one level deeper, remembering the state it left.
    ///
    /// The stack stays a partial linearization when the lifted operation
    /// may be linearized next and the model accepts it into `next_state`,
    /// as `try_linearize` found.  The search's own bookkeeping survives the
    /// lift when the search keeps its protocol: every active call before
    /// `pos` was found a dead end, and the cache holds nothing but what is
    /// on the stack, cannot be completed, or is the pair being lifted.
    pub fn lift(&mut self, pos: usize, next_state: M::State)
        requires
            old(self).inv_shape(),
            0 <= pos < old(self).n(),
            old(self).hist()[pos as int] is Call,
            old(self).active(old(self).depth(), pos as int),
        ensures
            final(self).inv_shape(),
            ({
                let d = old(self).depth();
                let o = old(self).hist()[pos as int].index() as int;
                &&& old(self).path_ok()
                &&& is_minimal(old(self).ops(), old(self).done_at(d), o)
                &&& M::step_spec(old(self).states()[d], old(self).ops()[o].op) == (true, next_state)
            }) ==> final(self).path_ok(),
            old(self).tried_ok() && old(self).dead_ends_before(pos) ==> final(self).tried_ok(),
            old(self).cache_ok_pending(
                old(self).done_at(old(self).depth()).insert(old(self).hist()[pos as int].index() as int),
                next_state,
            ) ==> final(self).cache_ok(),
            final(self).depth() == old(self).depth() + 1,
            final(self).order() == old(self).order().push(old(self).hist()[pos as int].index() as int),
            final(self).lifted_positions() == old(self).lifted_positions().push(pos),
            final(self).states() == old(self).states().push(next_state),
            forall|k: int| 0 <= k <= old(self).depth() ==> final(self).act(k) == old(self).act(k),
            forall|set: Set<int>, s: M::State| #[trigger]
                final(self).cached(set, s) == old(self).cached(set, s),
            forall|p: usize|
                #[trigger] final(self).act(old(self).depth() + 1).contains(p) <==> old(self).act(
                    old(self).depth(),
                ).contains(p) && old(self).hist()[p as int].index() != old(self).hist()[pos as int].index(),
            final(self).partition_view() == old(self).partition_view(),
            final(self).computes_info() == old(self).computes_info(),
            final(self).table() == old(self).table(),
    {
        let ghost d = self.depth();
        let ghost old_self = *self;
        let op_index = self.partition.check_history[pos].op_index();
        let ghost o = op_index as int;
        let ghost act = self.acts@[d];
        let ghost n = self.n() as usize;
        proof {
            assert(crate::partition::entry_of(self.ops(), self.hist()[pos as int]));
            lemma_words_for_capacity(self.ops().len());
            self.lemma_entry_owner(pos as int, o);
            assert(self.hist()[pos as int] == call_entry(self.ops(), o));
            assert(self.hist()[self.call_pos@[o] as int] == call_entry(self.ops(), o));
            lemma_sorted_injective(self.hist(), pos as int, self.call_pos@[o] as int);
            assert(act.contains(pos)) by {
                assert(self.acts@[d].contains(pos) <==> self.active(d, pos as int));
            }
            self.lemma_entry_owner(self.ret_pos@[o] as int, o);
            assert(act.contains(self.ret_pos@[o])) by {
                assert(self.acts@[d].contains(self.ret_pos@[o]) <==> self.active(
                    d,
                    self.ret_pos@[o] as int,
                ));
            }
            assert(self.hist()[self.ret_pos@[o] as int] is Return);
        }
        let mut prior = next_state;
        std::mem::swap(&mut self.state, &mut prior);
        self.linearized.set(op_index);
        self.stack.push(Frame { history_pos: pos, op_index, prior_state: prior });
        // Remove call first, return second; restore must be the reverse.
        let c = self.call_pos[op_index];
        let r = self.ret_pos[op_index];
        let ghost a = choose|a: int| 0 <= a < act.len() && act[a] == c;
        let ghost mid = act.remove(a);
        proof {
            lemma_remove_contains(act, n, a, r);
        }
        let ghost b = choose|b: int| 0 <= b < mid.len() && mid[b] == r;
        self.sl.remove(c);
        let ghost next1 = self.sl.next_seq();
        let ghost prev1 = self.sl.prev_seq();
        self.sl.remove(r);
        proof {
            self.acts@ = old_self.acts@.push(mid.remove(b));
            self.cuts@ = old_self.cuts@.push((a, b));
            self.lemma_lift_order(old_self, pos, o, next_state);
            self.lemma_lift_lists(old_self, pos, o, next_state, a, b, next1, prev1);
            self.lemma_lift_stack(old_self, pos, o, next_state);
            if old_self.tried_ok() && old_self.dead_ends_before(pos) {
                assert forall|k: int, p: usize|
                    0 <= k < self.depth() && #[trigger] self.acts@[k].contains(p) && p
                        < self.stack@[k].history_pos implies {
                    &&& self.hist()[p as int] is Call
                    &&& Self::exact() ==> dead_end(
                        self.ops(),
                        self.done_at(k),
                        self.states()[k],
                        self.hist()[p as int].index() as int,
                    )
                } by {
                    if k < d {
                        assert(old_self.acts@[k].contains(p));
                        assert(self.stack@[k] == old_self.stack@[k]);
                    } else {
                        assert(old_self.act(d).contains(p));
                    }
                }
            }
            if old_self.cache_ok_pending(old_self.done_at(d).insert(o), next_state) {
                if Self::exact() {
                    assert forall|set: Set<int>, s: M::State| #[trigger]
                        self.cache.holds(set, s) implies self.on_stack(set, s) || !extendable(
                        self.ops(),
                        set,
                        s,
                    ) by {
                        assert(old_self.cache.holds(set, s));
                        if old_self.on_stack(set, s) {
                            let k = choose|k: int|
                                1 <= k <= old_self.depth() && set == old_self.done_at(k) && s
                                    == #[trigger] old_self.states()[k];
                            assert(self.states()[k] == s);
                        } else if set == old_self.done_at(d).insert(o) && s == next_state {
                            assert(self.states()[d + 1] == s);
                        }
                    }
                }
            }
            assert forall|p: usize| #[trigger] self.act(d + 1).contains(p) <==> old_self.act(d).contains(p)
                && old_self.hist()[p as int].index() != op_index by {
                assert(self.acts@[d + 1].contains(p) <==> self.active(d + 1, p as int));
                assert(old_self.acts@[d].contains(p) <==> old_self.active(d, p as int));
            }
            assert(self.positions_ok());
        }
    }


    /// How the fields change when the deepest lift of `o` is undone.
    closed spec fn backtrack_step(&self, o: Self) -> bool {
        let d = o.depth();
        let f = o.stack@[d - 1];
        &&& d > 0
        &&& self.partition == o.partition
        &&& self.call_pos == o.call_pos
        &&& self.ret_pos == o.ret_pos
        &&& self.stack@ == o.stack@.drop_last()
        &&& self.state == f.prior_state
        &&& self.linearized.wf()
        &&& self.linearized.len() == o.linearized.len()
        &&& self.linearized@ == o.linearized@.remove(f.op_index as int)
        &&& self.cache == o.cache
        &&& self.longest == o.longest
        &&& self.compute_info == o.compute_info
        &&& self.sl.head_index() == o.sl.head_index()
        &&& self.sl.bounded()
        &&& self.acts@ == o.acts@.drop_last()
        &&& self.cuts@ == o.cuts@.drop_last()
    }

    proof fn lemma_backtrack_order(&self, o: Self)
        requires
            o.inv_shape(),
            self.backtrack_step(o),
        ensures
            self.order() == o.order().drop_last(),
            self.states() == o.states().drop_last(),
            self.lifted_positions() == o.lifted_positions().drop_last(),
            forall|k: int| 0 <= k < o.depth() ==> self.done_at(k) == o.done_at(k),
            self.depth() == o.depth() - 1,
    {
        let d = o.depth();
        assert(self.order() =~= o.order().drop_last());
        assert(self.states() =~= o.states().drop_last());
        assert(self.lifted_positions() =~= o.lifted_positions().drop_last());
        assert forall|k: int| 0 <= k < d implies self.done_at(k) == o.done_at(k) by {
            crate::history::lemma_prefix_set_agree(self.order(), o.order(), k);
        }
    }

    proof fn lemma_backtrack_cut(&self, o: Self, j: int)
        requires
            o.inv_shape(),
            self.backtrack_step(o),
            0 <= j < o.depth() - 1,
            forall|x: int|
                0 <= x < o.n() && !o.acts@[o.depth() - 1].contains(x as usize) ==> #[trigger]
                    self.sl.next_seq()[x] == o.sl.next_seq()[x] && self.sl.prev_seq()[x]
                    == o.sl.prev_seq()[x],
        ensures
            self.cut_ok(j),
    {
        let d = o.depth();
        let k = d - 1;
        self.lemma_backtrack_order(o);
        assert(o.cut_ok(j));
        let oj = o.order()[j];
        assert(self.order()[j] == oj);
        let cj = o.call_pos@[oj];
        let rj = o.ret_pos@[oj];
        let act = o.acts@[k];
        assert(o.done_at(k).contains(oj)) by {
            assert(o.order()[j] == oj);
        }
        assert(!act.contains(cj)) by {
            assert(act.contains(cj) <==> o.active(k, cj as int));
            o.lemma_entry_owner(cj as int, oj);
        }
        assert(!act.contains(rj)) by {
            assert(act.contains(rj) <==> o.active(k, rj as int));
            o.lemma_entry_owner(rj as int, oj);
        }
        assert(self.sl.next_seq()[cj as int] == o.sl.next_seq()[cj as int]);
        assert(self.sl.next_seq()[rj as int] == o.sl.next_seq()[rj as int]);
    }

    proof fn lemma_backtrack_lists(&self, o: Self, next1: Seq<usize>, prev1: Seq<usize>)
        requires
            o.inv_shape(),
            self.backtrack_step(o),
            ({
                let d = o.depth();
                let op = o.stack@[d - 1].op_index;
                &&& (next1, prev1) == restore_links(
                    o.sl.next_seq(),
                    o.sl.prev_seq(),
                    o.ret_pos@[op as int] as int,
                )
                &&& (self.sl.next_seq(), self.sl.prev_seq()) == restore_links(
                    next1,
                    prev1,
                    o.call_pos@[op as int] as int,
                )
            }),
        ensures
            self.list_ok(),
    {
        let d = o.depth();
        let k = d - 1;
        let op = o.order()[k];
        assert(op == o.stack@[k].op_index);
        let (a, b) = o.cuts@[k];
        assert(o.cut_ok(k));
        let act = o.acts@[k];
        let n = o.n() as usize;
        self.lemma_backtrack_order(o);
        assert(sorted_below(act, n));
        lemma_restore_pair(o.sl.next_seq(), o.sl.prev_seq(), n, act, a, b);
        assert forall|j: int| 0 <= j < k implies #[trigger] self.cut_ok(j) by {
            self.lemma_backtrack_cut(o, j);
        }
        assert forall|j: int| 0 <= j <= k implies {
            &&& sorted_below(#[trigger] self.acts@[j], self.n() as usize)
            &&& forall|p: usize| self.acts@[j].contains(p) <==> self.active(j, p as int)
        } by {
            assert(self.acts@[j] == o.acts@[j]);
            assert(sorted_below(o.acts@[j], n));
            assert forall|p: usize| self.acts@[j].contains(p) <==> self.active(j, p as int) by {
                assert(o.acts@[j].contains(p) <==> o.active(j, p as int));
            }
        }
    }

    proof fn lemma_backtrack_stack(&self, o: Self)
        requires
            o.inv_shape(),
            self.backtrack_step(o),
        ensures
            self.stack_ok(),
            o.path_ok() ==> self.path_ok(),
    {
        let d = o.depth();
        let k = d - 1;
        self.lemma_backtrack_order(o);
        let order = self.order();
        assert forall|j: int| 0 <= j < k implies #[trigger] self.stack@[j].history_pos
            == self.call_pos@[self.stack@[j].op_index as int] by {
            assert(self.stack@[j] == o.stack@[j]);
        }
        assert(self.order_ok()) by {
            assert forall|j: int| 0 <= j < order.len() implies 0 <= #[trigger] order[j] < self.ops().len()
                && !prefix_set(order, j).contains(order[j]) by {
                assert(order[j] == o.order()[j]);
                assert(prefix_set(order, j) == o.done_at(j));
            }
        }
        if o.path_ok() {
            assert forall|j: int| 0 <= j < order.len() implies {
                &&& 0 <= #[trigger] order[j] < self.ops().len()
                &&& !prefix_set(order, j).contains(order[j])
                &&& is_minimal(self.ops(), prefix_set(order, j), order[j])
                &&& M::step_spec(self.states()[j], self.ops()[order[j]].op) == (
                    true,
                    self.states()[j + 1],
                )
            } by {
                assert(order[j] == o.order()[j]);
                assert(prefix_set(order, j) == o.done_at(j));
            }
        }
        lemma_prefix_set_step(o.order(), k);
        assert(o.done_at(d) == o.done_at(k).insert(o.order()[k]));
        assert(!o.done_at(k).contains(o.order()[k]));
        assert(self.linearized@ =~= self.done_at(k));
    }

    /// Undo the deepest lift, returning the position of its call; with
    /// nothing lifted, return `None` and change nothing.
    ///
    /// The search's bookkeeping survives the step back as far as it held
    /// before.  When nothing completes from the node being left (what the
    /// search has established when it backtracks), the undone lift is a
    /// dead end and the cache holds nothing that could still be completed
    /// and is no longer on the stack.
    pub fn backtrack(&mut self) -> (r: Option<usize>)
        requires
            old(self).inv_shape(),
        ensures
            old(self).depth() == 0 ==> r is None && *final(self) == *old(self),
            old(self).depth() > 0 ==> ({
                let d = old(self).depth();
                let o = old(self).order()[d - 1];
                let hp = old(self).lifted_positions()[d - 1];
                let stuck = Self::exact() ==> !extendable(
                    old(self).ops(),
                    old(self).done_at(d),
                    old(self).states()[d],
                );
                &&& r == Some(hp)
                &&& final(self).inv_shape()
                &&& old(self).path_ok() ==> final(self).path_ok()
                &&& old(self).tried_ok() ==> final(self).tried_ok() && final(self).dead_ends_before(hp)
                &&& old(self).cache_ok() && stuck ==> final(self).cache_ok()
                &&& final(self).depth() == d - 1
                &&& final(self).order() == old(self).order().drop_last()
                &&& final(self).lifted_positions() == old(self).lifted_positions().drop_last()
                &&& final(self).states() == old(self).states().drop_last()
                &&& forall|k: int| 0 <= k < d ==> final(self).act(k) == old(self).act(k)
                &&& final(self).partition_view() == old(self).partition_view()
                &&& final(self).computes_info() == old(self).computes_info()
                &&& final(self).table() == old(self).table()
                &&& forall|set: Set<int>, s: M::State| #[trigger]
                    final(self).cached(set, s) == old(self).cached(set, s)
                &&& old(self).done_at(d) == final(self).done_at(d - 1).insert(o)
                &&& old(self).path_ok() ==> M::step_spec(final(self).states()[d - 1], final(self).ops()[o].op)
                    == (true, old(self).states()[d])
                &&& 0 <= hp < final(self).n()
                &&& final(self).act(d - 1).contains(hp)
                &&& final(self).hist()[hp as int] is Call
                &&& final(self).hist()[hp as int].index() == o
                &&& old(self).path_ok() && Self::exact() && stuck ==> dead_end(
                    final(self).ops(),
                    final(self).done_at(d - 1),
                    final(self).states()[d - 1],
                    o,
                )
            }),
    {
        let ghost old_self = *self;
        let ghost d = self.depth();
        if self.stack.len() == 0 {
            return None;
        }
        let frame = match self.stack.pop() {
            Some(f) => f,
            None => {
                return None;
            },
        };
        let Frame { history_pos, op_index, prior_state } = frame;
        proof {
            let k = d - 1;
            assert(old_self.stack@[k] == frame);
            assert(old_self.order()[k] == op_index);
            lemma_words_for_capacity(old_self.ops().len());
            assert(op_index < old_self.ops().len());
        }
        self.state = prior_state;
        self.linearized.clear(op_index);
        let r = self.ret_pos[op_index];
        let c = self.call_pos[op_index];
        // Restore in reverse order: return first, then call.
        self.sl.restore(r);
        let ghost next1 = self.sl.next_seq();
        let ghost prev1 = self.sl.prev_seq();
        self.sl.restore(c);
        proof {
            let k = d - 1;
            self.acts@ = old_self.acts@.drop_last();
            self.cuts@ = old_self.cuts@.drop_last();
            self.lemma_backtrack_order(old_self);
            self.lemma_backtrack_lists(old_self, next1, prev1);
            self.lemma_backtrack_stack(old_self);
            let o = old_self.order()[k];
            assert(old_self.cut_ok(k));
            assert(self.act(k).contains(history_pos));
            assert(history_pos == old_self.call_pos@[o]);
            assert(self.hist()[history_pos as int] == call_entry(self.ops(), o));
            lemma_prefix_set_step(old_self.order(), k);
            assert(old_self.done_at(d) == self.done_at(k).insert(o));
            if old_self.path_ok() {
                assert(old_self.states()[d] == M::step_spec(self.states()[k], self.ops()[o].op).1);
            }
            if old_self.tried_ok() {
                assert forall|j: int, p: usize|
                    0 <= j < self.depth() && #[trigger] self.acts@[j].contains(p) && p
                        < self.stack@[j].history_pos implies {
                    &&& self.hist()[p as int] is Call
                    &&& Self::exact() ==> dead_end(
                        self.ops(),
                        self.done_at(j),
                        self.states()[j],
                        self.hist()[p as int].index() as int,
                    )
                } by {
                    assert(old_self.acts@[j].contains(p));
                    assert(self.stack@[j] == old_self.stack@[j]);
                }
                assert forall|q: usize| #[trigger] self.act(k).contains(q) && q < history_pos implies {
                    &&& self.hist()[q as int] is Call
                    &&& Self::exact() ==> dead_end(
                        self.ops(),
                        self.done_at(k),
                        self.states()[k],
                        self.hist()[q as int].index() as int,
                    )
                } by {
                    assert(old_self.acts@[k].contains(q));
                }
            }
            if old_self.cache_ok() && (Self::exact() ==> !extendable(
                old_self.ops(),
                old_self.done_at(d),
                old_self.states()[d],
            )) {
                if Self::exact() {
                    assert forall|set: Set<int>, s: M::State| #[trigger]
                        self.cache.holds(set, s) implies self.on_stack(set, s) || !extendable(
                        self.ops(),
                        set,
                        s,
                    ) by {
                        assert(old_self.cache.holds(set, s));
                        if old_self.on_stack(set, s) {
                            let j = choose|j: int|
                                1 <= j <= old_self.depth() && set == old_self.done_at(j) && s
                                    == #[trigger] old_self.states()[j];
                            if j < d {
                                assert(self.states()[j] == s);
                            }
                        }
                    }
                }
            }
            assert(self.positions_ok());
        }
        Some(history_pos)
    }


    /// The operations lifted so far, as the sequence that is recorded.
    fn current_sequence(&self) -> (v: Vec<usize>)
        requires
            self.inv_shape(),
        ensures
            as_order(v@) == self.order(),
            v@.len() == self.depth(),
            forall|k: int| 0 <= k < self.depth() ==> v@[k] as int == self.order()[k],
    {
        let mut v: Vec<usize> = Vec::new();
        let mut k: usize = 0;
        while k < self.stack.len()
            invariant
                k <= self.stack@.len(),
                v@.len() == k,
                forall|j: int| 0 <= j < k ==> v@[j] as int == self.order()[j],
            decreases self.stack@.len() - k,
        {
            v.push(self.stack[k].op_index);
            k = k + 1;
        }
        assert(as_order(v@) =~= self.order());
        v
    }

    /// The stack is a partial linearization.
    proof fn lemma_order_is_partial(&self)
        requires
            self.inv_core(),
        ensures
            is_partial_linearization(self.ops(), self.order()),
    {
        lemma_path_runs(self.ops(), self.order(), self.states(), 0);
        lemma_prefix_set_empty(self.order());
        assert(self.order().skip(0) =~= self.order());
    }

    /// Operation `x` needs the current stack recorded: it has no recorded
    /// sequence yet, or only a shorter one.
    pub open spec fn needs_update(&self, x: int) -> bool {
        let t = self.table();
        match t.slots@[x] {
            None => true,
            Some(i) => self.depth() > t.seqs@[i as int]@.len(),
        }
    }

    /// Update `longest` for every operation currently on the stack.
    ///
    /// Called just before [`backtrack`] when a `Return` entry is at the head
    /// of the active history.  At that moment the stack represents the longest
    /// prefix we've found so far that includes each of those operations.
    ///
    /// The sequence is recorded at most once per call and shared by all
    /// entries that benefit from it.
    pub fn update_longest(&mut self)
        requires
            old(self).inv(),
        ensures
            final(self).inv(),
            final(self).same_except_table(old(self)),
            final(self).order() == old(self).order(),
            final(self).states() == old(self).states(),
            final(self).lifted_positions() == old(self).lifted_positions(),
            final(self).depth() == old(self).depth(),
            forall|k: int| 0 <= k <= old(self).depth() ==> final(self).act(k) == old(self).act(k),
            final(self).partition_view() == old(self).partition_view(),
            final(self).computes_info() == old(self).computes_info(),
            forall|set: Set<int>, s: M::State| #[trigger]
                final(self).cached(set, s) == old(self).cached(set, s),
            !old(self).computes_info() ==> final(self).table() == old(self).table(),
            old(self).computes_info() ==> ({
                let t0 = old(self).table();
                let t = final(self).table();
                let any = exists|k: int|
                    0 <= k < old(self).depth() && old(self).needs_update(
                        #[trigger] old(self).order()[k],
                    );
                &&& t.seqs_view() == (if any {
                    t0.seqs_view().push(old(self).order().map_values(|x: int| x as usize))
                } else {
                    t0.seqs_view()
                })
                &&& t.slots@.len() == t0.slots@.len()
                &&& forall|x: int|
                    0 <= x < t.slots@.len() ==> #[trigger] t.slots@[x] == (if old(self).done_at(
                        old(self).depth(),
                    ).contains(x) && old(self).needs_update(x) {
                        Some(t0.seqs@.len() as usize)
                    } else {
                        t0.slots@[x]
                    })
            }),
    {
        if !self.compute_info {
            return;
        }
        let ghost old_self = *self;
        let ghost d = self.depth();
        let depth = self.stack.len();
        let mut seq: Option<usize> = None;
        let mut k: usize = 0;
        proof {
            crate::history::lemma_prefix_set_len(self.order(), d);
            lemma_prefix_set_empty(self.order());
        }
        while k < depth
            invariant
                k <= depth,
                depth == d,
                d == old_self.depth(),
                old_self.inv(),
                self.inv(),
                self.same_except_table(&old_self),
                self.compute_info,
                self.longest.slots@.len() == old_self.longest.slots@.len(),
                seq is None <==> !(exists|j: int|
                    0 <= j < k && old_self.needs_update(#[trigger] old_self.order()[j])),
                seq is None ==> self.longest.seqs_view() == old_self.longest.seqs_view(),
                seq is Some ==> seq->0 == old_self.longest.seqs@.len() && self.longest.seqs_view()
                    == old_self.longest.seqs_view().push(
                    old_self.order().map_values(|x: int| x as usize),
                ),
                forall|x: int|
                    0 <= x < self.longest.slots@.len() ==> #[trigger] self.longest.slots@[x] == (
                    if old_self.done_at(k as int).contains(x) && old_self.needs_update(x) {
                        Some(old_self.longest.seqs@.len() as usize)
                    } else {
                        old_self.longest.slots@[x]
                    }),
            decreases depth - k,
        {
            let id = self.stack[k].op_index;
            proof {
                assert(old_self.order()[k as int] == id as int);
                assert(!old_self.done_at(k as int).contains(id as int));
                assert(self.longest.slots@[id as int] == old_self.longest.slots@[id as int]);
                lemma_prefix_set_step(old_self.order(), k as int);
            }
            let needs = match self.longest.slots[id] {
                None => true,
                Some(i) => {
                    proof {
                        assert(old_self.longest.wf());
                        assert(i < old_self.longest.seqs@.len());
                        assert(self.longest.seqs@[i as int]@ == old_self.longest.seqs@[i as int]@) by {
                            assert(self.longest.seqs_view()[i as int] == old_self.longest.seqs_view()[
                                i as int]);
                        }
                    }
                    depth > self.longest.seqs[i].len()
                },
            };
            proof {
                assert(needs == old_self.needs_update(id as int));
            }
            if needs {
                if seq.is_none() {
                    let s = self.current_sequence();
                    proof {
                        old_self.lemma_order_is_partial();
                        assert(s@ == old_self.order().map_values(|x: int| x as usize)) by {
                            assert(s@ =~= old_self.order().map_values(|x: int| x as usize));
                        }
                    }
                    let ghost before = self.longest.seqs_view();
                    self.longest.seqs.push(s);
                    proof {
                        assert(self.longest.seqs_view() =~= before.push(s@));
                    }
                    seq = Some(self.longest.seqs.len() - 1);
                }
                self.longest.slots.set(id, seq);
            }
            proof {
                assert forall|x: int| 0 <= x < self.longest.slots@.len() implies #[trigger]
                    self.longest.slots@[x] == (if old_self.done_at(k + 1).contains(x)
                        && old_self.needs_update(x) {
                        Some(old_self.longest.seqs@.len() as usize)
                    } else {
                        old_self.longest.slots@[x]
                    }) by {}
                assert(self.info_ok()) by {
                    assert forall|i: int|
                        0 <= i < self.longest.seqs@.len() implies is_partial_linearization(
                        self.ops(),
                        as_order(#[trigger] self.longest.seqs@[i]@),
                    ) by {
                        if i < old_self.longest.seqs@.len() {
                            assert(self.longest.seqs_view()[i] == old_self.longest.seqs_view()[i]);
                            assert(is_partial_linearization(
                                old_self.ops(),
                                as_order(old_self.longest.seqs@[i]@),
                            ));
                        } else {
                            assert(self.longest.seqs_view()[i] == old_self.order().map_values(
                                |x: int| x as usize,
                            ));
                            old_self.lemma_order_is_partial();
                            assert(self.order() =~= old_self.order());
                            assert(as_order(self.longest.seqs@[i]@) =~= self.order());
                        }
                    }
                }
                self.lemma_same_except_table(old_self);
            }
            k = k + 1;
        }
    }


    /// Called when the search completes with a full linearization.
    ///
    /// Sets every entry in `longest` to the complete linearization sequence
    /// (the entire stack, in order), shared by all entries.
    pub fn finalize_longest(&mut self)
        requires
            old(self).inv(),
        ensures
            final(self).inv(),
            final(self).same_except_table(old(self)),
            final(self).order() == old(self).order(),
            final(self).states() == old(self).states(),
            final(self).lifted_positions() == old(self).lifted_positions(),
            final(self).depth() == old(self).depth(),
            forall|k: int| 0 <= k <= old(self).depth() ==> final(self).act(k) == old(self).act(k),
            final(self).partition_view() == old(self).partition_view(),
            final(self).computes_info() == old(self).computes_info(),
            !old(self).computes_info() ==> final(self).table() == old(self).table(),
            old(self).computes_info() ==> ({
                let t0 = old(self).table();
                let t = final(self).table();
                &&& t.seqs_view() == t0.seqs_view().push(
                    old(self).order().map_values(|x: int| x as usize),
                )
                &&& t0.seqs@.len() < usize::MAX
                &&& t.slots@.len() == t0.slots@.len()
                &&& forall|x: int|
                    0 <= x < t.slots@.len() ==> #[trigger] t.slots@[x] == Some(
                        t0.seqs@.len() as usize,
                    )
            }),
    {
        if !self.compute_info {
            return;
        }
        let ghost old_self = *self;
        let s = self.current_sequence();
        proof {
            self.lemma_order_is_partial();
            assert(s@ =~= old_self.order().map_values(|x: int| x as usize));
        }
        let ghost before = self.longest.seqs_view();
        self.longest.seqs.push(s);
        proof {
            assert(self.longest.seqs_view() =~= before.push(s@));
        }
        let id = self.longest.seqs.len() - 1;
        let mut k: usize = 0;
        while k < self.longest.slots.len()
            invariant
                k <= self.longest.slots@.len(),
                id == old_self.longest.seqs@.len(),
                self.longest.slots@.len() == old_self.longest.slots@.len(),
                self.longest.seqs_view() == old_self.longest.seqs_view().push(
                    old_self.order().map_values(|x: int| x as usize),
                ),
                self.longest.seqs@.len() == id + 1,
                self.same_except_table(&old_self),
                forall|x: int| 0 <= x < k ==> #[trigger] self.longest.slots@[x] == Some(id),
                forall|x: int|
                    k <= x < self.longest.slots@.len() ==> #[trigger] self.longest.slots@[x]
                        == old_self.longest.slots@[x],
                old_self.inv(),
            decreases self.longest.slots@.len() - k,
        {
            self.longest.slots.set(k, Some(id));
            k = k + 1;
        }
        proof {
            assert(old_self.longest.wf());
            assert(self.info_ok()) by {
                assert forall|i: int|
                    0 <= i < self.longest.seqs@.len() implies is_partial_linearization(
                    self.ops(),
                    as_order(#[trigger] self.longest.seqs@[i]@),
                ) by {
                    if i < old_self.longest.seqs@.len() {
                        assert(self.longest.seqs_view()[i] == old_self.longest.seqs_view()[i]);
                        assert(is_partial_linearization(
                            old_self.ops(),
                            as_order(old_self.longest.seqs@[i]@),
                        ));
                    } else {
                        assert(self.longest.seqs_view()[i] == old_self.order().map_values(
                            |x: int| x as usize,
                        ));
                        old_self.lemma_order_is_partial();
                        assert(self.order() =~= old_self.order());
                        assert(as_order(self.longest.seqs@[i]@) =~= self.order());
                    }
                }
            }
            self.lemma_same_except_table(old_self);
        }
    }

    /// Consume the `Linearizer` and return the recorded sequences.
    pub fn into_longest(self) -> (t: LongestTable)
        ensures
            t == self.table(),
    {
        self.longest
    }


    /// The active entries at each depth are sorted and are exactly the
    /// entries of operations not lifted below that depth.
    pub proof fn lemma_act(&self, k: int)
        requires
            self.inv_shape(),
            0 <= k <= self.depth(),
        ensures
            sorted_below(self.act(k), self.n() as usize),
            forall|p: usize| self.act(k).contains(p) <==> self.active(k, p as int),
    {
    }

    /// Facts about the stack that the driver of the search needs.
    pub proof fn lemma_stack(&self)
        requires
            self.inv_shape(),
        ensures
            0 <= self.depth() <= self.ops().len(),
            self.states().len() == self.depth() + 1,
            self.order().len() == self.depth(),
            forall|k: int| 0 <= k < self.depth() ==> 0 <= #[trigger] self.order()[k] < self.ops().len(),
            self.states()[0] == M::init_spec(),
            self.done_at(0) == Set::<int>::empty(),
            self.partition_view().wf(),
            self.ops() == self.partition_view().ops@,
            self.hist() == self.partition_view().check_history@,
            self.n() == self.hist().len(),
            self.n() + 1 < usize::MAX,
            self.lifted_positions().len() == self.depth(),
            forall|k: int| 0 <= k < self.depth() ==> #[trigger] self.lifted_positions()[k] < self.n(),
            forall|k: int|
                0 <= k <= self.depth() ==> #[trigger] self.done_at(k).finite() && self.done_at(k).len() == k,
            forall|k: int, x: int| 0 <= k <= self.depth() && #[trigger] self.done_at(k).contains(x) ==> 0 <= x < self.ops().len(),
            self.table().wf(),
            self.computes_info() ==> self.table().slots@.len() == self.ops().len(),
            forall|i: int|
                0 <= i < self.table().seqs@.len() ==> is_partial_linearization(
                    self.ops(),
                    as_order(#[trigger] self.table().seqs@[i]@),
                ),
    {
        lemma_prefix_set_empty(self.order());
        assert forall|k: int| 0 <= k <= self.depth() implies #[trigger] self.done_at(k).finite()
            && self.done_at(k).len() == k by {
            crate::history::lemma_prefix_set_len(self.order(), k);
        }
        assert forall|k: int, x: int| 0 <= k <= self.depth() && #[trigger] self.done_at(k).contains(x) implies 0
            <= x < self.ops().len() by {
            let j = choose|j: int| 0 <= j < k && self.order()[j] == x;
        }
        assert forall|k: int| 0 <= k < self.depth() implies #[trigger] self.lifted_positions()[k]
            < self.n() by {
            assert(self.order()[k] == self.stack@[k].op_index as int);
            assert(0 <= self.order()[k] < self.ops().len());
            assert(self.stack@[k].history_pos == self.call_pos@[self.stack@[k].op_index as int]);
        }
    }

    /// A call reached while every active entry before it is a call may be
    /// linearized next.
    pub proof fn lemma_scan_minimal(&self, pos: usize)
        requires
            self.inv_shape(),
            self.act(self.depth()).contains(pos),
            self.hist()[pos as int] is Call,
            forall|q: usize|
                #[trigger] self.act(self.depth()).contains(q) && q < pos ==> self.hist()[q as int] is Call,
        ensures
            is_minimal(self.ops(), self.done_at(self.depth()), self.hist()[pos as int].index() as int),
    {
        let d = self.depth();
        let h = self.hist();
        let ops = self.ops();
        let i = h[pos as int].index() as int;
        assert(self.active(d, pos as int));
        assert(crate::partition::entry_of(ops, h[pos as int]));
        assert(h[pos as int] == call_entry(ops, i));
        assert(h[self.call_pos@[i] as int] == call_entry(ops, i));
        lemma_sorted_injective(h, pos as int, self.call_pos@[i] as int);
        assert forall|j: int|
            0 <= j < ops.len() && !self.done_at(d).contains(j) implies !#[trigger] precedes(
            ops,
            j,
            i,
        ) by {
            let rp = self.ret_pos@[j];
            assert(h[rp as int] == return_entry(ops, j));
            crate::partition::lemma_return_before_call(ops, h, rp as int, pos as int, j, i);
            if rp < pos {
                assert(self.active(d, rp as int));
                assert(self.act(d).contains(rp));
            }
        }
    }

    /// A return reached while every active entry before it is a call that
    /// leads nowhere: nothing completes from the current depth.
    pub proof fn lemma_scan_return(&self, pos: usize)
        requires
            self.inv_shape(),
            self.act(self.depth()).contains(pos),
            self.hist()[pos as int] is Return,
            forall|q: usize|
                #[trigger] self.act(self.depth()).contains(q) && q < pos ==> {
                    &&& self.hist()[q as int] is Call
                    &&& Self::exact() ==> dead_end(
                        self.ops(),
                        self.done_at(self.depth()),
                        self.states()[self.depth()],
                        self.hist()[q as int].index() as int,
                    )
                },
        ensures
            Self::exact() ==> !extendable(
                self.ops(),
                self.done_at(self.depth()),
                self.states()[self.depth()],
            ),
    {
        let d = self.depth();
        let h = self.hist();
        let ops = self.ops();
        let done = self.done_at(d);
        let y = h[pos as int].index() as int;
        assert(self.active(d, pos as int));
        assert(crate::partition::entry_of(ops, h[pos as int]));
        assert(h[pos as int] == return_entry(ops, y));
        if Self::exact() {
            assert forall|c: int|
                0 <= c < ops.len() && !done.contains(c) && #[trigger] is_minimal(
                    ops,
                    done,
                    c,
                ) implies dead_end(ops, done, self.states()[d], c) by {
                let cp = self.call_pos@[c];
                assert(h[cp as int] == call_entry(ops, c));
                crate::partition::lemma_return_before_call(ops, h, pos as int, cp as int, y, c);
                assert(!precedes(ops, y, c));
                assert(cp != pos);
                assert(self.active(d, cp as int));
                assert(self.act(d).contains(cp));
            }
            assert(!crate::history::all_done(ops, done));
            crate::history::lemma_all_dead_ends(ops, done, self.states()[d]);
        }
    }

    /// A call that may be linearized next stands among the active entries
    /// before any active return.
    pub proof fn lemma_minimal_call_before(&self, pos: usize, c: int)
        requires
            self.inv_shape(),
            self.act(self.depth()).contains(pos),
            self.hist()[pos as int] is Return,
            0 <= c < self.ops().len(),
            !self.done_at(self.depth()).contains(c),
            is_minimal(self.ops(), self.done_at(self.depth()), c),
        ensures
            exists|q: usize|
                #[trigger] self.act(self.depth()).contains(q) && q < pos && self.hist()[q as int] is Call
                    && self.hist()[q as int].index() == c,
    {
        let d = self.depth();
        let h = self.hist();
        let ops = self.ops();
        let y = h[pos as int].index() as int;
        assert(self.active(d, pos as int));
        assert(crate::partition::entry_of(ops, h[pos as int]));
        assert(h[pos as int] == return_entry(ops, y));
        let cp = self.call_pos@[c];
        assert(h[cp as int] == call_entry(ops, c));
        crate::partition::lemma_return_before_call(ops, h, pos as int, cp as int, y, c);
        assert(cp != pos);
        assert(self.active(d, cp as int));
        assert(self.act(d).contains(cp));
        assert(h[cp as int].index() == c);
    }

    /// When every active entry is a call, every operation is lifted, and the
    /// stack is a linearization.
    pub proof fn lemma_scan_done(&self)
        requires
            self.inv_core(),
            forall|q: usize| #[trigger] self.act(self.depth()).contains(q) ==> self.hist()[q as int] is Call,
        ensures
            is_linearization(self.ops(), self.order()),
            forall|j: int| 0 <= j < self.ops().len() ==> #[trigger] self.done_at(self.depth()).contains(j),
    {
        let d = self.depth();
        let ops = self.ops();
        let done = self.done_at(d);
        assert forall|j: int| 0 <= j < ops.len() implies #[trigger] done.contains(j) by {
            if !done.contains(j) {
                let rp = self.ret_pos@[j];
                assert(self.hist()[rp as int] == return_entry(ops, j));
                assert(self.active(d, rp as int));
                assert(self.act(d).contains(rp));
            }
        }
        crate::history::lemma_path_completes(ops, self.order(), self.states(), 0);
        lemma_prefix_set_empty(self.order());
        assert(self.order().skip(0) =~= self.order());
    }

    /// The first active entry, or `n` when none is active.
    pub fn front(&self) -> (r: usize)
        requires
            self.inv_shape(),
        ensures
            r == (if self.act(self.depth()).len() > 0 {
                self.act(self.depth())[0] as int
            } else {
                self.n()
            }),
    {
        self.sl.front()
    }

    /// The active entry after `cur`, or `n` after the last.
    pub fn next_of(&self, cur: usize) -> (r: usize)
        requires
            self.inv_shape(),
            self.act(self.depth()).contains(cur),
        ensures
            forall|j: int|
                0 <= j < self.act(self.depth()).len() && self.act(self.depth())[j] == cur ==> r == succ_of(
                    self.act(self.depth()),
                    j,
                    self.n() as usize,
                ),
    {
        proof {
            let j = choose|j: int| 0 <= j < self.act(self.depth()).len() && self.act(self.depth())[j] == cur;
            assert(self.acts@[self.depth()][j] < self.n());
        }
        self.sl.next_of(cur)
    }
}

} // verus!
