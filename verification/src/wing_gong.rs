//! A small checker on its own: histories of entries that each name a key,
//! split by key, and the Wing & Gong search over each key's entries.
//!
//! Within a sub-history the search tries, as the next linearization point,
//! each entry that no other remaining entry finished before, checks the
//! model's return value against the recorded one, and backtracks when the
//! rest cannot be linearized.  An entry without a recorded return value is
//! pending: any return value is fine.
use core::fmt::Debug;
use crate::model::splits;
use vstd::prelude::*;

verus! {

/// The sequential model that a concurrent object must match.
pub trait Model: Sized + Clone + Send + Sync {
    type State: Clone + Send + Sync + Debug;
    type Op: Clone + Send + Sync + Debug;
    type Ret: Clone + PartialEq + Send + Sync + Debug;

    /// The initial state.
    open spec fn init_spec() -> Self::State {
        vstd::pervasive::arbitrary()
    }

    /// The state after `op`, and the value that `op` returns.
    open spec fn step_spec(state: Self::State, op: Self::Op) -> (Self::State, Self::Ret) {
        vstd::pervasive::arbitrary()
    }

    fn init() -> (s: Self::State)
        ensures
            s == Self::init_spec(),
    ;

    /// Apply `op` to `state`; return (new_state, expected_return_value).
    fn step(state: &Self::State, op: &Self::Op) -> (r: (Self::State, Self::Ret))
        ensures
            r == Self::step_spec(*state, *op),
    ;

    /// Whether a recorded return value `got` is the value `expected` that
    /// the model gives: the same value, unless the model compares its
    /// return values otherwise (by their text, say).
    open spec fn same_ret(got: Self::Ret, expected: Self::Ret) -> bool {
        got == expected
    }

    /// Compare a recorded return value with the one the model gives, as
    /// `==` on the return type does.
    fn ret_eq(got: &Self::Ret, expected: &Self::Ret) -> (r: bool)
        ensures
            r == Self::same_ret(*got, *expected),
    ;
}

/// A single-register (per-key) key-value model.
#[derive(Clone)]
pub struct KVModel;

#[derive(Clone, Debug)]
pub enum KVOp {
    Write(String),
    Read,
}

impl Model for KVModel {
    type State = Option<String>;
    type Op = KVOp;
    type Ret = Option<String>;

    open spec fn init_spec() -> Option<String> {
        None
    }

    /// A write stores its value and returns nothing; a read returns what is
    /// stored.
    open spec fn step_spec(state: Option<String>, op: KVOp) -> (Option<String>, Option<String>) {
        match op {
            KVOp::Write(v) => (Some(v), None),
            KVOp::Read => (state, state),
        }
    }

    /// Two return values are the same when both are missing, or both hold
    /// the same text.
    open spec fn same_ret(got: Option<String>, expected: Option<String>) -> bool {
        match (got, expected) {
            (None, None) => true,
            (Some(a), Some(b)) => a@ == b@,
            _ => false,
        }
    }

    fn ret_eq(got: &Option<String>, expected: &Option<String>) -> (r: bool) {
        match (got, expected) {
            (None, None) => true,
            (Some(a), Some(b)) => *a == *b,
            _ => false,
        }
    }

    fn init() -> (s: Option<String>) {
        None
    }

    fn step(state: &Option<String>, op: &KVOp) -> (r: (Option<String>, Option<String>)) {
        match op {
            KVOp::Write(v) => (Some(v.clone()), None),
            KVOp::Read => {
                let a = match state {
                    Some(s) => Some(s.clone()),
                    None => None,
                };
                let b = match state {
                    Some(s) => Some(s.clone()),
                    None => None,
                };
                (a, b)
            },
        }
    }
}

/// The register starts empty.  A read leaves the register as it is and
/// returns what it holds; a write stores its value and returns nothing.
pub proof fn lemma_kv_model_steps(state: Option<String>, v: String)
    ensures
        KVModel::init_spec() == None::<String>,
        KVModel::step_spec(state, KVOp::Read) == (state, state),
        KVModel::step_spec(state, KVOp::Write(v)) == (Some(v), None::<String>),
{
}

/// The interval `[call_time, ret_time]` of one client operation on `key`.
/// `ret` is `None` for a pending operation, whose `ret_time` is
/// `u64::MAX`.
#[derive(Clone, Debug)]
pub struct Entry<M: Model> {
    pub id: usize,
    pub key: String,
    pub op: M::Op,
    pub ret: Option<M::Ret>,
    pub call_time: u64,
    pub ret_time: u64,
}

// ---------------------------------------------------------------------------
// Partitioning by key
// ---------------------------------------------------------------------------

/// The entries of each group.
pub open spec fn groups_view<M: Model>(groups: Seq<(String, Vec<Entry<M>>)>) -> Seq<Seq<Entry<M>>> {
    groups.map_values(|g: (String, Vec<Entry<M>>)| g.1@)
}

/// Whether an entry is on `key`.
pub open spec fn key_is<M: Model>(key: Seq<char>) -> spec_fn(Entry<M>) -> bool {
    |e: Entry<M>| e.key@ == key
}

/// The entries of `ops` on `key`, in their order.
pub open spec fn on_key<M: Model>(ops: Seq<Entry<M>>, key: Seq<char>) -> Seq<Entry<M>> {
    ops.filter(key_is(key))
}

/// Each group holds entries of its key only, and no two groups have the
/// same key.
pub open spec fn grouped_by_key<M: Model>(groups: Seq<(String, Vec<Entry<M>>)>) -> bool {
    &&& forall|g: int, i: int|
        0 <= g < groups.len() && 0 <= i < groups[g].1@.len() ==> (#[trigger] groups[g].1@[i]).key@
            == groups[g].0@
    &&& forall|g: int, h: int| 0 <= g < h < groups.len() ==> (#[trigger] groups[g]).0@ != (#[trigger] groups[h]).0@
}

/// Some group is on `key`.
pub open spec fn has_group<M: Model>(groups: Seq<(String, Vec<Entry<M>>)>, key: Seq<char>) -> bool {
    exists|g: int| 0 <= g < groups.len() && (#[trigger] groups[g]).0@ == key
}

/// Each group holds exactly the entries of `ops` on its key, and every key
/// of `ops` has a group.
pub open spec fn groups_of<M: Model>(ops: Seq<Entry<M>>, groups: Seq<(String, Vec<Entry<M>>)>) -> bool {
    &&& forall|g: int| 0 <= g < groups.len() ==> (#[trigger] groups[g]).1@ == on_key(ops, groups[g].0@)
    &&& forall|i: int| 0 <= i < ops.len() ==> has_group(groups, (#[trigger] ops[i]).key@)
}

/// Appending `e` to the group of its key keeps the groups those of the
/// longer history.
proof fn lemma_groups_extend<M: Model>(
    ops: Seq<Entry<M>>,
    before: Seq<(String, Vec<Entry<M>>)>,
    after: Seq<(String, Vec<Entry<M>>)>,
    g: int,
    e: Entry<M>,
)
    requires
        groups_of(ops, before),
        grouped_by_key(before),
        0 <= g < before.len(),
        before[g].0@ == e.key@,
        after.len() == before.len(),
        after[g].0 == before[g].0,
        after[g].1@ == before[g].1@.push(e),
        forall|x: int| 0 <= x < before.len() && x != g ==> after[x] == before[x],
    ensures
        groups_of(ops.push(e), after),
{
    assert forall|x: int| 0 <= x < after.len() implies (#[trigger] after[x]).1@ == on_key(ops.push(e), after[x].0@) by {
        ops.lemma_filter_push(e, key_is::<M>(after[x].0@));
        if x != g {
            assert(after[x].0@ != before[g].0@);
        }
    }
    assert forall|i: int| 0 <= i < ops.push(e).len() implies has_group(after, (#[trigger] ops.push(e)[i]).key@) by {
        if i < ops.len() {
            assert(ops.push(e)[i] == ops[i]);
            assert(has_group(before, ops[i].key@));
            let x = choose|x: int| 0 <= x < before.len() && (#[trigger] before[x]).0@ == ops[i].key@;
            assert(after[x].0@ == ops[i].key@);
        } else {
            assert(after[g].0@ == e.key@);
        }
    }
}

/// Starting a group for a key that has none keeps the groups those of the
/// longer history.
proof fn lemma_groups_start<M: Model>(
    ops: Seq<Entry<M>>,
    before: Seq<(String, Vec<Entry<M>>)>,
    after: Seq<(String, Vec<Entry<M>>)>,
    e: Entry<M>,
)
    requires
        groups_of(ops, before),
        forall|x: int| 0 <= x < before.len() ==> (#[trigger] before[x]).0@ != e.key@,
        after.len() == before.len() + 1,
        forall|x: int| 0 <= x < before.len() ==> after[x] == before[x],
        after[before.len() as int].0@ == e.key@,
        after[before.len() as int].1@ == seq![e],
    ensures
        groups_of(ops.push(e), after),
{
    let p = key_is::<M>(e.key@);
    assert(ops.filter(p).len() == 0) by {
        if ops.filter(p).len() > 0 {
            let i = crate::locality::lemma_position(ops, p, 0);
            assert(has_group(before, ops[i].key@));
        }
    }
    assert forall|x: int| 0 <= x < after.len() implies (#[trigger] after[x]).1@ == on_key(ops.push(e), after[x].0@) by {
        ops.lemma_filter_push(e, key_is::<M>(after[x].0@));
        if x == before.len() {
            assert(ops.filter(p) =~= Seq::<Entry<M>>::empty());
            assert(seq![e] =~= Seq::<Entry<M>>::empty().push(e));
        }
    }
    assert forall|i: int| 0 <= i < ops.push(e).len() implies has_group(after, (#[trigger] ops.push(e)[i]).key@) by {
        if i < ops.len() {
            assert(ops.push(e)[i] == ops[i]);
            assert(has_group(before, ops[i].key@));
            let x = choose|x: int| 0 <= x < before.len() && (#[trigger] before[x]).0@ == ops[i].key@;
            assert(after[x].0@ == ops[i].key@);
        } else {
            assert(after[before.len() as int].0@ == e.key@);
        }
    }
}

/// Flattening after pushing `x` onto one part adds `x` to the multiset.
proof fn lemma_flatten_push_into<T>(parts: Seq<Seq<T>>, j: int, x: T)
    requires
        0 <= j < parts.len(),
    ensures
        parts.update(j, parts[j].push(x)).flatten().to_multiset() == parts.flatten().to_multiset().insert(x),
    decreases parts.len(),
{
    broadcast use vstd::seq_lib::group_to_multiset_ensures, vstd::multiset::group_multiset_axioms;

    let q = parts.update(j, parts[j].push(x));
    assert(parts.flatten() == parts.first() + parts.drop_first().flatten());
    assert(q.flatten() == q.first() + q.drop_first().flatten());
    vstd::seq_lib::lemma_multiset_commutative(parts.first(), parts.drop_first().flatten());
    vstd::seq_lib::lemma_multiset_commutative(q.first(), q.drop_first().flatten());
    if j == 0 {
        assert(q.drop_first() =~= parts.drop_first());
        assert(q.first() == parts.first().push(x));
        assert(q.first().to_multiset() == parts.first().to_multiset().insert(x));
        assert(q.flatten().to_multiset() =~= parts.flatten().to_multiset().insert(x));
    } else {
        assert(q.drop_first() =~= parts.drop_first().update(j - 1, parts.drop_first()[j - 1].push(x)));
        lemma_flatten_push_into(parts.drop_first(), j - 1, x);
        assert(q.first() == parts.first());
        assert(q.flatten().to_multiset() =~= parts.flatten().to_multiset().insert(x));
    }
}

/// Flattening after adding a part `[x]` adds `x` to the multiset.
proof fn lemma_flatten_push_part<T>(parts: Seq<Seq<T>>, x: T)
    ensures
        parts.push(seq![x]).flatten().to_multiset() == parts.flatten().to_multiset().insert(x),
{
    broadcast use vstd::seq_lib::group_to_multiset_ensures, vstd::multiset::group_multiset_axioms;

    vstd::seq_lib::lemma_flatten_concat(parts, seq![seq![x]]);
    assert(parts.push(seq![x]) =~= parts + seq![seq![x]]);
    seq![seq![x]].lemma_flatten_one_element();
    vstd::seq_lib::lemma_multiset_commutative(parts.flatten(), seq![x]);
    assert(seq![x] =~= Seq::<T>::empty().push(x));
}

/// Partition the history by key: a group per key, in the order in which
/// the keys first appear, each holding the key's entries in history order.
pub fn partition<M: Model>(history: Vec<Entry<M>>) -> (groups: Vec<(String, Vec<Entry<M>>)>)
    ensures
        splits(history@, groups_view(groups@)),
        grouped_by_key(groups@),
        groups_of(history@, groups@),
{
    broadcast use vstd::seq_lib::group_to_multiset_ensures, vstd::multiset::group_multiset_axioms;

    let ghost h = history@;
    let n = history.len();
    let mut rest = history;
    let mut reversed: Vec<Entry<M>> = Vec::new();
    while rest.len() > 0
        invariant
            rest@.len() + reversed@.len() == n,
            n == h.len(),
            rest@ == h.take(rest@.len() as int),
            forall|j: int| 0 <= j < reversed@.len() ==> #[trigger] reversed@[j] == h[n - 1 - j],
        decreases rest@.len(),
    {
        let e = rest.pop().unwrap();
        reversed.push(e);
        proof {
            assert(rest@ =~= h.take(rest@.len() as int));
        }
    }
    let mut groups: Vec<(String, Vec<Entry<M>>)> = Vec::new();
    let mut k: usize = 0;
    proof {
        assert(groups_view(groups@).flatten() =~= Seq::<Entry<M>>::empty());
        assert(h.take(0) =~= Seq::<Entry<M>>::empty());
        assert(groups_of(h.take(0), groups@));
    }
    while reversed.len() > 0
        invariant
            k + reversed@.len() == n,
            n == h.len(),
            forall|j: int| 0 <= j < reversed@.len() ==> #[trigger] reversed@[j] == h[n - 1 - j],
            groups_view(groups@).flatten().to_multiset() == h.take(k as int).to_multiset(),
            grouped_by_key(groups@),
            groups_of(h.take(k as int), groups@),
        decreases reversed@.len(),
    {
        let e = reversed.pop().unwrap();
        proof {
            assert(e == h[k as int]);
            assert(h.take(k + 1) =~= h.take(k as int).push(e));
        }
        let key = e.key.clone();
        let mut g: usize = 0;
        while g < groups.len() && groups[g].0 != key
            invariant
                g <= groups@.len(),
                forall|x: int| 0 <= x < g ==> (#[trigger] groups@[x]).0@ != key@,
            decreases groups@.len() - g,
        {
            g = g + 1;
        }
        let ghost before = groups@;
        if g < groups.len() {
            let mut slot: (String, Vec<Entry<M>>) = (String::new(), Vec::new());
            groups.set_and_swap(g, &mut slot);
            let (gk, mut members) = slot;
            members.push(e);
            groups.set(g, (gk, members));
            proof {
                assert(groups@.len() == before.len());
                assert(groups@[g as int].0 == before[g as int].0);
                assert(groups@[g as int].1@ == before[g as int].1@.push(e));
                assert forall|x: int| 0 <= x < groups@.len() && x != g as int implies groups@[x] == before[x] by {}
                assert(groups_view(groups@) =~= groups_view(before).update(
                    g as int,
                    groups_view(before)[g as int].push(e),
                ));
                lemma_flatten_push_into(groups_view(before), g as int, e);
                lemma_groups_extend(h.take(k as int), before, groups@, g as int, e);
                assert forall|x: int, i: int|
                    0 <= x < groups@.len() && 0 <= i < groups@[x].1@.len() implies (
                    #[trigger] groups@[x].1@[i]).key@ == groups@[x].0@ by {
                    if x != g as int {
                        assert(groups@[x] == before[x]);
                    } else if i < before[x].1@.len() {
                        assert(groups@[x].1@[i] == before[x].1@[i]);
                    }
                }
                assert forall|x: int, y: int| 0 <= x < y < groups@.len() implies (#[trigger] groups@[x]).0@
                    != (#[trigger] groups@[y]).0@ by {
                    assert(groups@[x].0 == before[x].0);
                    assert(groups@[y].0 == before[y].0);
                }
            }
        } else {
            let mut members: Vec<Entry<M>> = Vec::new();
            members.push(e);
            groups.push((key, members));
            proof {
                assert(groups_view(groups@) =~= groups_view(before).push(seq![e]));
                lemma_flatten_push_part(groups_view(before), e);
                assert(groups@[before.len() as int].1@ =~= seq![e]);
                lemma_groups_start(h.take(k as int), before, groups@, e);
                assert forall|x: int, i: int|
                    0 <= x < groups@.len() && 0 <= i < groups@[x].1@.len() implies (
                    #[trigger] groups@[x].1@[i]).key@ == groups@[x].0@ by {
                    if x < before.len() {
                        assert(groups@[x] == before[x]);
                    }
                }
                assert forall|x: int, y: int| 0 <= x < y < groups@.len() implies (#[trigger] groups@[x]).0@
                    != (#[trigger] groups@[y]).0@ by {
                    if y < before.len() {
                        assert(groups@[x] == before[x]);
                        assert(groups@[y] == before[y]);
                    } else {
                        assert(groups@[x] == before[x]);
                    }
                }
            }
        }
        proof {
            assert(h.take(k + 1) == h.take(k as int).push(e));
            vstd::seq_lib::to_multiset_build(h.take(k as int), e);
            assert(groups_view(groups@).flatten().to_multiset() == groups_view(before).flatten().to_multiset().insert(e));
            assert(groups_of(h.take(k + 1), groups@));
        }
        k = k + 1;
    }
    proof {
        assert(h.take(n as int) =~= h);
    }
    groups
}

// ---------------------------------------------------------------------------
// The Wing & Gong search
// ---------------------------------------------------------------------------

/// No other remaining entry finished before entry `i` started.
pub open spec fn wg_minimal<M: Model>(ops: Seq<Entry<M>>, i: int) -> bool {
    forall|j: int| 0 <= j < ops.len() && j != i ==> !(#[trigger] ops[j].ret_time <= ops[i].call_time)
}

/// The entry's recorded return value is `expected`, or it has none.
pub open spec fn ret_matches<M: Model>(e: Entry<M>, expected: M::Ret) -> bool {
    match e.ret {
        Some(r) => M::same_ret(r, expected),
        None => true,
    }
}

/// The entries `ops`, from model state `state`, can be linearized: some
/// entry that no other finished before returns what the model says, and
/// the rest can be linearized from the state after it.
pub open spec fn wg_linearizable<M: Model>(ops: Seq<Entry<M>>, state: M::State) -> bool
    decreases ops.len(),
{
    if ops.len() == 0 {
        true
    } else {
        exists|i: int|
            0 <= i < ops.len() && #[trigger] wg_minimal(ops, i) && ret_matches(
                ops[i],
                M::step_spec(state, ops[i].op).1,
            ) && wg_linearizable(ops.remove(i), M::step_spec(state, ops[i].op).0)
    }
}

/// `run` lists entries of `ops` in an order that the search may follow
/// from model state `state`: each in turn is one that no other remaining
/// entry finished before, and returns what the model says.
pub open spec fn wg_run<M: Model>(ops: Seq<Entry<M>>, state: M::State, run: Seq<Entry<M>>) -> bool
    decreases run.len(),
{
    if run.len() == 0 {
        true
    } else {
        exists|i: int|
            0 <= i < ops.len() && ops[i] == run[0] && #[trigger] wg_minimal(ops, i) && ret_matches(
                ops[i],
                M::step_spec(state, ops[i].op).1,
            ) && wg_run(ops.remove(i), M::step_spec(state, ops[i].op).0, run.drop_first())
    }
}

/// The ids of the entries of `run`.
pub open spec fn ids<M: Model>(run: Seq<Entry<M>>) -> Seq<usize> {
    run.map_values(|e: Entry<M>| e.id)
}

/// A copy of `v`.
fn copy_ids(v: &Vec<usize>) -> (r: Vec<usize>)
    ensures
        r@ == v@,
{
    let mut out: Vec<usize> = Vec::new();
    let mut i: usize = 0;
    while i < v.len()
        invariant
            i <= v@.len(),
            out@ == v@.take(i as int),
        decreases v@.len() - i,
    {
        out.push(v[i]);
        i = i + 1;
        proof {
            assert(out@ =~= v@.take(i as int));
        }
    }
    proof {
        assert(v@.take(v@.len() as int) =~= v@);
    }
    out
}

/// Internal state for the Wing-Gong backtracking search.
struct Searcher<M: Model> {
    ops: Vec<Entry<M>>,
    model: M::State,
    order: Vec<usize>,
    /// The longest linearization order built so far.
    best: Vec<usize>,
}

impl<M: Model> Searcher<M> {
    fn new(ops: Vec<Entry<M>>) -> (s: Self)
        ensures
            s.ops@ == ops@,
            s.model == M::init_spec(),
            s.order@.len() == 0,
            s.best@.len() == 0,
    {
        // Pending ops are treated as completed at infinity —
        // they can be ordered anywhere (conservative: assume worst case).
        Self { ops, model: M::init(), order: Vec::new(), best: Vec::new() }
    }

    /// The positions of the remaining entries that no other remaining entry
    /// finished before, in increasing order.
    fn minimal_ops(&self) -> (r: Vec<usize>)
        ensures
            forall|k: int| 0 <= k < r@.len() ==> #[trigger] r@[k] < self.ops@.len() && wg_minimal(self.ops@, r@[k] as int),
            forall|a: int, b: int| 0 <= a < b < r@.len() ==> #[trigger] r@[a] < #[trigger] r@[b],
            forall|i: int| 0 <= i < self.ops@.len() && wg_minimal(self.ops@, i) ==> #[trigger] r@.contains(i as usize),
    {
        let n = self.ops.len();
        let mut r: Vec<usize> = Vec::new();
        let mut i: usize = 0;
        while i < n
            invariant
                i <= n,
                n == self.ops@.len(),
                forall|k: int| 0 <= k < r@.len() ==> #[trigger] r@[k] < i && wg_minimal(self.ops@, r@[k] as int),
                forall|a: int, b: int| 0 <= a < b < r@.len() ==> #[trigger] r@[a] < #[trigger] r@[b],
                forall|x: int| 0 <= x < i && wg_minimal(self.ops@, x) ==> #[trigger] r@.contains(x as usize),
            decreases n - i,
        {
            let mut j: usize = 0;
            let mut minimal = true;
            while j < n
                invariant
                    j <= n,
                    i < n,
                    n == self.ops@.len(),
                    minimal <==> forall|x: int|
                        0 <= x < j && x != i ==> !(#[trigger] self.ops@[x].ret_time <= self.ops@[i as int].call_time),
                decreases n - j,
            {
                if j != i && self.ops[j].ret_time <= self.ops[i].call_time {
                    minimal = false;
                }
                j = j + 1;
            }
            let ghost before = r@;
            if minimal {
                r.push(i);
                proof {
                    assert forall|x: int| 0 <= x < i + 1 && wg_minimal(self.ops@, x) implies #[trigger] r@.contains(
                        x as usize,
                    ) by {
                        if x < i {
                            assert(before.contains(x as usize));
                            let w = choose|w: int| 0 <= w < before.len() && before[w] == x as usize;
                            assert(r@[w] == x as usize);
                        } else {
                            assert(r@[before.len() as int] == i);
                        }
                    }
                }
            }
            i = i + 1;
        }
        r
    }

    /// Recursive Wing-Gong search.
    /// Returns true iff a valid linearization exists, recorded return
    /// values compared by the model's `ret_eq`.  When it does not, the searcher
    /// is left as it was, but for `best`: the longest order it built is
    /// kept there, if longer than what `best` held.
    fn search(&mut self) -> (r: bool)
        ensures
            (r == wg_linearizable(old(self).ops@, old(self).model)),
            !r ==> final(self).ops@ == old(self).ops@ && final(self).model == old(self).model
                && final(self).order@ == old(self).order@ && final(self).best@.len() >= old(
                self,
            ).best@.len(),
            !r ==> {
                &&& final(self).best@ == old(self).best@ || exists|run: Seq<Entry<M>>|
                    #[trigger] wg_run(old(self).ops@, old(self).model, run) && final(self).best@
                        == old(self).order@ + ids(run)
                &&& forall|run: Seq<Entry<M>>|
                    #[trigger] wg_run(old(self).ops@, old(self).model, run) ==> old(self).order@.len()
                        + run.len() <= final(self).best@.len()
            },
        decreases old(self).ops@.len(),
    {
        if self.ops.len() == 0 {
            return true;
        }
        let ghost ops0 = self.ops@;
        let ghost model0 = self.model;
        let ghost order0 = self.order@;
        let ghost best0 = self.best@;
        if self.order.len() > self.best.len() {
            self.best = copy_ids(&self.order);
            proof {
                assert(wg_run(ops0, model0, Seq::<Entry<M>>::empty()));
                assert(order0 + ids(Seq::<Entry<M>>::empty()) =~= order0);
            }
        }
        let candidates = self.minimal_ops();
        let mut c: usize = 0;
        while c < candidates.len()
            invariant
                c <= candidates@.len(),
                self.ops@ == ops0,
                self.model == model0,
                self.order@ == order0,
                ops0 == old(self).ops@,
                model0 == old(self).model,
                order0 == old(self).order@,
                best0 == old(self).best@,
                ops0.len() > 0,
                self.best@.len() >= best0.len(),
                self.best@.len() >= order0.len(),
                (self.best@ == best0 || exists|run: Seq<Entry<M>>|
                    #[trigger] wg_run(ops0, model0, run) && self.best@ == order0 + ids(run)),
                forall|k: int, run: Seq<Entry<M>>|
                    0 <= k < c && ret_matches(
                        ops0[candidates@[k] as int],
                        M::step_spec(model0, ops0[candidates@[k] as int].op).1,
                    ) && #[trigger] wg_run(
                        ops0.remove(#[trigger] candidates@[k] as int),
                        M::step_spec(model0, ops0[candidates@[k] as int].op).0,
                        run,
                    ) ==> order0.len() + 1 + run.len() <= self.best@.len(),
                forall|k: int| 0 <= k < candidates@.len() ==> #[trigger] candidates@[k] < ops0.len() && wg_minimal(ops0, candidates@[k] as int),
                forall|a: int, b: int| 0 <= a < b < candidates@.len() ==> #[trigger] candidates@[a] < #[trigger] candidates@[b],
                forall|i: int| 0 <= i < ops0.len() && wg_minimal(ops0, i) ==> #[trigger] candidates@.contains(i as usize),
                forall|k: int|
                    0 <= k < c ==> {
                        let i = #[trigger] candidates@[k] as int;
                        !(ret_matches(ops0[i], M::step_spec(model0, ops0[i].op).1) && wg_linearizable(
                            ops0.remove(i),
                            M::step_spec(model0, ops0[i].op).0,
                        ))
                    },
            decreases candidates@.len() - c,
        {
            let idx = candidates[c];
            let entry = self.ops.remove(idx);
            let (new_state, expected_ret) = M::step(&self.model, &entry.op);
            let ret_ok = match &entry.ret {
                None => true,
                Some(ret) => M::ret_eq(ret, &expected_ret),
            };
            proof {
                assert(ret_ok == ret_matches(ops0[idx as int], M::step_spec(model0, ops0[idx as int].op).1));
            }
            if ret_ok {
                // Commit this op as the next linearization point.
                let mut saved_model = new_state;
                std::mem::swap(&mut self.model, &mut saved_model);
                self.order.push(entry.id);
                if self.search() {
                    proof {
                        {
                            assert(wg_minimal(ops0, idx as int));
                            assert(wg_linearizable(ops0, model0));
                        }
                    }
                    return true;
                }
                // Backtrack.
                self.order.pop();
                self.model = saved_model;
                proof {
                    assert(self.order@ =~= order0);
                    {
                        let e = ops0[idx as int];
                        if exists|run: Seq<Entry<M>>|
                            #[trigger] wg_run(ops0.remove(idx as int), new_state, run) && self.best@
                                == order0.push(e.id) + ids(run) {
                            let run = choose|run: Seq<Entry<M>>|
                                #[trigger] wg_run(ops0.remove(idx as int), new_state, run) && self.best@
                                    == order0.push(e.id) + ids(run);
                            let whole = seq![e] + run;
                            assert(whole.drop_first() =~= run);
                            assert(wg_minimal(ops0, idx as int));
                            assert(wg_run(ops0, model0, whole));
                            assert(order0 + ids(whole) =~= order0.push(e.id) + ids(run));
                        }
                    }
                }
            }
            self.ops.insert(idx, entry);
            proof {
                assert(self.ops@ =~= ops0);
            }
            c = c + 1;
        }
        proof {
            {
                assert forall|run: Seq<Entry<M>>| #[trigger] wg_run(ops0, model0, run) implies order0.len()
                    + run.len() <= self.best@.len() by {
                    if run.len() > 0 {
                        let i = choose|i: int|
                            0 <= i < ops0.len() && ops0[i] == run[0] && #[trigger] wg_minimal(ops0, i)
                                && ret_matches(ops0[i], M::step_spec(model0, ops0[i].op).1) && wg_run(
                                ops0.remove(i),
                                M::step_spec(model0, ops0[i].op).0,
                                run.drop_first(),
                            );
                        assert(candidates@.contains(i as usize));
                        let k = choose|k: int| 0 <= k < candidates@.len() && candidates@[k] == i as usize;
                        assert(candidates@[k] as int == i);
                        assert(wg_run(
                            ops0.remove(candidates@[k] as int),
                            M::step_spec(model0, ops0[candidates@[k] as int].op).0,
                            run.drop_first(),
                        ));
                    }
                }
            }
            if wg_linearizable(ops0, model0) {
                let i = choose|i: int|
                    0 <= i < ops0.len() && #[trigger] wg_minimal(ops0, i) && ret_matches(
                        ops0[i],
                        M::step_spec(model0, ops0[i].op).1,
                    ) && wg_linearizable(ops0.remove(i), M::step_spec(model0, ops0[i].op).0);
                assert(candidates@.contains(i as usize));
                let k = choose|k: int| 0 <= k < candidates@.len() && candidates@[k] == i as usize;
                assert(candidates@[k] as int == i);
            }
        }
        false
    }
}

/// Result of checking a single sub-history.
#[derive(Debug)]
pub enum CheckResult {
    Linearizable,
    /// The ids, in order, of the failing prefix: the longest order in which
    /// the search could linearize entries before it ran out of candidates.
    NotLinearizable { witness: Vec<usize> },
}

/// Check one sub-history (single key) for linearizability.
///
/// When it is not linearizable, the witness lists the entries that were
/// linearized before the contradiction: the ids of a longest order in
/// which entries can be linearized one after another from the initial
/// state.  Recorded return values are compared by the model's `ret_eq`.
pub fn check_subhistory<M: Model>(ops: Vec<Entry<M>>) -> (r: CheckResult)
    ensures
        (r is Linearizable <==> wg_linearizable(ops@, M::init_spec())),
        (r matches CheckResult::NotLinearizable { witness } ==> exists|
            run: Seq<Entry<M>>,
        |
            #[trigger] wg_run(ops@, M::init_spec(), run) && witness@ == ids(run) && forall|
                other: Seq<Entry<M>>,
            | #[trigger] wg_run(ops@, M::init_spec(), other) ==> other.len() <= run.len()),
{
    let ghost h = ops@;
    let mut s = Searcher::new(ops);
    if s.search() {
        CheckResult::Linearizable
    } else {
        proof {
            {
                let empty = Seq::<Entry<M>>::empty();
                if s.best@.len() == 0 {
                    assert(wg_run(h, M::init_spec(), empty));
                    assert(s.best@ =~= ids(empty));
                } else {
                    let run = choose|run: Seq<Entry<M>>|
                        #[trigger] wg_run(h, M::init_spec(), run) && s.best@ == Seq::<usize>::empty() + ids(run);
                    assert(s.best@ =~= ids(run));
                }
            }
        }
        // Return the IDs that were linearized before the contradiction.
        CheckResult::NotLinearizable { witness: s.best }
    }
}

/// The first key, in the order given, whose sub-history is not
/// linearizable, with its witness; `None` when every key's is.
pub fn first_violation(results: Vec<(String, CheckResult)>) -> (r: Option<(String, Vec<usize>)>)
    ensures
        r is None <==> forall|i: int| 0 <= i < results@.len() ==> (#[trigger] results@[i]).1 is Linearizable,
        r matches Some((key, witness)) ==> exists|i: int|
            0 <= i < results@.len() && (#[trigger] results@[i]).0 == key
                && results@[i].1 == (CheckResult::NotLinearizable { witness })
                && forall|j: int| 0 <= j < i ==> (#[trigger] results@[j]).1 is Linearizable,
{
    let ghost all = results@;
    let n = results.len();
    let mut front = results;
    let mut rest: Vec<(String, CheckResult)> = Vec::new();
    while front.len() > 0
        invariant
            front@.len() + rest@.len() == n,
            n == all.len(),
            front@ == all.take(front@.len() as int),
            all == results@,
            forall|j: int| 0 <= j < rest@.len() ==> #[trigger] rest@[j] == all[n - 1 - j],
        decreases front@.len(),
    {
        let x = front.pop().unwrap();
        rest.push(x);
        proof {
            assert(front@ =~= all.take(front@.len() as int));
        }
    }
    let mut k: usize = 0;
    while rest.len() > 0
        invariant
            k + rest@.len() == n,
            n == all.len(),
            forall|j: int| 0 <= j < rest@.len() ==> #[trigger] rest@[j] == all[n - 1 - j],
            forall|j: int| 0 <= j < k ==> (#[trigger] all[j]).1 is Linearizable,
            all == results@,
        decreases rest@.len(),
    {
        let (key, result) = rest.pop().unwrap();
        proof {
            assert(all[k as int] == (key, result));
        }
        match result {
            CheckResult::NotLinearizable { witness } => {
                proof {
                    assert(all[k as int].0 == key);
                    assert(!(all[k as int].1 is Linearizable));
                }
                return Some((key, witness));
            },
            CheckResult::Linearizable => {},
        }
        k = k + 1;
    }
    None
}

// ---------------------------------------------------------------------------
// History builder (test harness)
// ---------------------------------------------------------------------------

pub struct HistoryBuilder<M: Model> {
    pub entries: Vec<Entry<M>>,
    pub next_id: usize,
}

impl<M: Model> HistoryBuilder<M> {
    pub fn new() -> (b: Self)
        ensures
            b.entries@.len() == 0,
            b.next_id == 0,
    {
        Self { entries: Vec::new(), next_id: 0 }
    }

    /// `after` is `before` with one more entry, the given one, under the
    /// next id.
    pub open spec fn recorded(
        before: Self,
        after: Self,
        key: Seq<char>,
        op: M::Op,
        ret: Option<M::Ret>,
        call_time: u64,
        ret_time: u64,
    ) -> bool {
        &&& after.next_id == before.next_id + 1
        &&& after.entries@ == before.entries@.push(
            Entry { id: before.next_id, key: after.entries@.last().key, op, ret, call_time, ret_time },
        )
        &&& after.entries@.last().key@ == key
    }

    /// Record an entry on `key`, with the next id.
    pub fn add(&mut self, key: &str, op: M::Op, ret: Option<M::Ret>, call_time: u64, ret_time: u64) -> (r: &mut Self)
        requires
            old(self).next_id < usize::MAX,
        ensures
            Self::recorded(*old(self), *r, key@, op, ret, call_time, ret_time),
            *final(self) == *final(r),
    {
        self.entries.push(Entry { id: self.next_id, key: key.to_owned(), op, ret, call_time, ret_time });
        self.next_id = self.next_id + 1;
        self
    }

    /// Record a pending entry on `key`: no return value, and a return time
    /// at infinity.
    pub fn pending(&mut self, key: &str, op: M::Op, call_time: u64) -> (r: &mut Self)
        requires
            old(self).next_id < usize::MAX,
        ensures
            Self::recorded(*old(self), *r, key@, op, None, call_time, u64::MAX),
            *final(self) == *final(r),
    {
        self.add(key, op, None, call_time, u64::MAX)
    }

    pub fn build(self) -> (r: Vec<Entry<M>>)
        ensures
            r@ == self.entries@,
    {
        self.entries
    }
}

} // verus!
