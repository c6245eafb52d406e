//! Diagnostic information about a linearizability search: the longest
//! partial linearizations of each partition, and annotations to show beside
//! them.
use crate::history::is_partial_linearization;
use crate::linearizer::{as_order, LongestTable};
use crate::model::{Model, Operation};
use vstd::prelude::*;

verus! {

/// An extra marker to render in the visualization alongside client operations.
///
/// Supply either `client_id` (to annotate an existing client's timeline) or
/// `tag` (to create a named independent timeline, e.g. `"server"` or
/// `"framework"`).
///
/// `end` is optional; if omitted (left as `None`) the annotation is treated as
/// a point-in-time event at `start`.
///
/// `text_color` and `background_color` are optional CSS color strings,
/// e.g. `"#efaefc"`.
#[derive(Debug, Clone, Default)]
pub struct Annotation {
    pub client_id: Option<u32>,
    pub tag: Option<String>,
    pub start: i64,
    pub end: Option<i64>,
    pub description: String,
    pub details: String,
    pub text_color: String,
    pub background_color: String,
}

/// The annotation as stored: an `end` that is missing or before `start` is
/// moved to `start`.
pub open spec fn clamped(a: Annotation) -> Annotation {
    Annotation {
        end: Some(
            match a.end {
                Some(e) => if e < a.start {
                    a.start
                } else {
                    e
                },
                None => a.start,
            },
        ),
        ..a
    }
}

/// Diagnostic information about a linearizability check.
#[derive(Debug, Clone)]
pub struct LinearizationInfo<M: Model> {
    /// One entry per partition.  Each entry is a deduplicated list of partial
    /// (or complete) linearization sequences.
    ///
    /// A sequence is a `Vec<usize>` of `op_index` values in linearization order.
    pub partial_linearizations: Vec<Vec<Vec<usize>>>,
    /// The operations of each partition, in `op_index` order.
    pub partition_ops: Vec<Vec<Operation<M>>>,
    /// Optional extra annotations added by the caller.
    pub annotations: Vec<Annotation>,
}

/// The ids named by the slots, each once, in the order of their first slot.
pub open spec fn first_ids(slots: Seq<Option<usize>>) -> Seq<usize>
    decreases slots.len(),
{
    if slots.len() == 0 {
        Seq::empty()
    } else {
        let prev = first_ids(slots.drop_last());
        match slots.last() {
            Some(i) => if prev.contains(i) {
                prev
            } else {
                prev.push(i)
            },
            None => prev,
        }
    }
}

/// Every id that `first_ids` lists is named by some slot.
pub proof fn lemma_first_ids_named(slots: Seq<Option<usize>>, k: int)
    requires
        0 <= k < first_ids(slots).len(),
    ensures
        exists|x: int| 0 <= x < slots.len() && slots[x] == Some(first_ids(slots)[k]),
    decreases slots.len(),
{
    let prev = first_ids(slots.drop_last());
    if k < prev.len() && first_ids(slots)[k] == prev[k] {
        lemma_first_ids_named(slots.drop_last(), k);
        let x = choose|x: int| 0 <= x < slots.len() - 1 && slots.drop_last()[x] == Some(prev[k]);
        assert(slots[x] == Some(prev[k]));
    } else {
        assert(slots[slots.len() - 1] == Some(first_ids(slots)[k]));
    }
}

/// Every id that a slot names is listed by `first_ids`.
pub proof fn lemma_named_in_first_ids(slots: Seq<Option<usize>>, x: int)
    requires
        0 <= x < slots.len(),
        slots[x] is Some,
    ensures
        first_ids(slots).contains(slots[x]->0),
    decreases slots.len(),
{
    let prev = first_ids(slots.drop_last());
    if x < slots.len() - 1 {
        lemma_named_in_first_ids(slots.drop_last(), x);
        assert(slots.drop_last()[x] == slots[x]);
        let k = choose|k: int| 0 <= k < prev.len() && prev[k] == slots[x]->0;
        match slots.last() {
            Some(i) => {
                if !prev.contains(i) {
                    assert(prev.push(i)[k] == prev[k]);
                }
            },
            None => {},
        }
    } else {
        match slots.last() {
            Some(i) => {
                if !prev.contains(i) {
                    assert(prev.push(i)[prev.len() as int] == i);
                }
            },
            None => {},
        }
    }
}

/// An independent copy of a sequence of indices.
fn copy_indices(v: &Vec<usize>) -> (r: Vec<usize>)
    ensures
        r@ == v@,
{
    let mut r: Vec<usize> = Vec::new();
    let mut k: usize = 0;
    while k < v.len()
        invariant
            k <= v@.len(),
            r@ == v@.take(k as int),
        decreases v@.len() - k,
    {
        r.push(v[k]);
        k = k + 1;
        assert(r@ =~= v@.take(k as int));
    }
    assert(v@.take(v@.len() as int) =~= v@);
    r
}

/// The recorded sequences that some slot names, each once, in the order of
/// the first slot that names it.
fn dedup_sequences(longest: LongestTable) -> (r: Vec<Vec<usize>>)
    requires
        longest.wf(),
    ensures
        r@.len() == first_ids(longest.slots@).len(),
        forall|k: int|
            0 <= k < r@.len() ==> #[trigger] r@[k]@ == longest.seqs@[first_ids(longest.slots@)[k] as int]@,
{
    let nseq: usize = longest.seqs.len();
    let mut seen: Vec<bool> = vec![false; nseq];
    let mut unique: Vec<Vec<usize>> = Vec::new();
    let mut x: usize = 0;
    while x < longest.slots.len()
        invariant
            longest.wf(),
            x <= longest.slots@.len(),
            seen@.len() == longest.seqs@.len(),
            seen@.len() == nseq,
            unique@.len() == first_ids(longest.slots@.take(x as int)).len(),
            forall|i: int|
                0 <= i < seen@.len() ==> (#[trigger] seen@[i] <==> first_ids(
                    longest.slots@.take(x as int),
                ).contains(i as usize)),
            forall|k: int|
                0 <= k < unique@.len() ==> #[trigger] unique@[k]@ == longest.seqs@[first_ids(
                    longest.slots@.take(x as int),
                )[k] as int]@,
        decreases longest.slots@.len() - x,
    {
        let ghost before = longest.slots@.take(x as int);
        let ghost after = longest.slots@.take(x + 1);
        proof {
            assert(after.drop_last() =~= before);
            assert(after.last() == longest.slots@[x as int]);
        }
        match longest.slots[x] {
            Some(id) => {
                proof {
                    assert(longest.slots@[x as int] is Some);
                    assert(id < longest.seqs@.len());
                }
                if !seen[id] {
                    seen.set(id, true);
                    let s = copy_indices(&longest.seqs[id]);
                    unique.push(s);
                    proof {
                        assert(first_ids(after) == first_ids(before).push(id));
                        assert forall|i: int| 0 <= i < seen@.len() implies (#[trigger] seen@[i]
                            <==> first_ids(after).contains(i as usize)) by {
                            let fa = first_ids(after);
                            let fb = first_ids(before);
                            if i != id as int {
                                if fb.contains(i as usize) {
                                    let w = choose|w: int| 0 <= w < fb.len() && fb[w] == i as usize;
                                    assert(fa[w] == i as usize);
                                }
                                if fa.contains(i as usize) {
                                    let w = choose|w: int| 0 <= w < fa.len() && fa[w] == i as usize;
                                    assert(fa[fb.len() as int] == id);
                                    assert((i as usize) as int == i);
                                    assert(w != fb.len());
                                    assert(fb[w] == i as usize);
                                }
                            } else {
                                assert(first_ids(after)[first_ids(before).len() as int] == id);
                            }
                        }
                    }
                } else {
                    proof {
                        assert(first_ids(before).contains(id));
                        assert(first_ids(after) == first_ids(before));
                    }
                }
            },
            None => {
                proof {
                    assert(first_ids(after) == first_ids(before));
                }
            },
        }
        x = x + 1;
    }
    proof {
        assert(longest.slots@.take(longest.slots@.len() as int) =~= longest.slots@);
    }
    unique
}

impl<M: Model> Default for LinearizationInfo<M> {
    fn default() -> (r: Self)
        ensures
            r.partial_linearizations@.len() == 0,
            r.partition_ops@.len() == 0,
            r.annotations@.len() == 0,
    {
        Self { partial_linearizations: Vec::new(), partition_ops: Vec::new(), annotations: Vec::new() }
    }
}

impl<M: Model> LinearizationInfo<M> {
    /// One list of partial linearizations per partition, each a partial
    /// linearization of that partition's operations.
    pub open spec fn wf(&self) -> bool {
        &&& self.partial_linearizations@.len() == self.partition_ops@.len()
        &&& forall|p: int, k: int|
            0 <= p < self.partial_linearizations@.len() && 0 <= k
                < self.partial_linearizations@[p]@.len() ==> is_partial_linearization(
                self.partition_ops@[p]@,
                as_order(#[trigger] self.partial_linearizations@[p]@[k]@),
            )
    }

    /// For each partition, every operation that lies on a partial
    /// linearization of the partition's operations lies on a listed one
    /// that is at least as long.
    pub open spec fn lists_longest(&self) -> bool {
        forall|p: int, q: Seq<int>, x: int|
            0 <= p < self.partial_linearizations@.len() && #[trigger] is_partial_linearization(
                self.partition_ops@[p]@,
                q,
            ) && #[trigger] q.contains(x) ==> exists|k: int|
                0 <= k < self.partial_linearizations@[p]@.len()
                    && (#[trigger] self.partial_linearizations@[p]@[k])@.contains(x as usize)
                    && self.partial_linearizations@[p]@[k]@.len() >= q.len()
    }

    /// An empty info object, used when `compute_info` is `false`.
    pub fn empty() -> (r: Self)
        ensures
            r.partial_linearizations@.len() == 0,
            r.partition_ops@.len() == 0,
            r.annotations@.len() == 0,
            r.wf(),
    {
        Self::default()
    }

    /// Build a `LinearizationInfo` from the raw data collected during the search.
    ///
    /// `all_longest[p]` holds the sequences recorded for partition `p`, and
    /// which operations they were recorded for; `partition_ops[p]` is the
    /// operations of partition `p`.  Each partition keeps the recorded
    /// sequences that some operation names, each once.
    pub fn from_longest(all_longest: Vec<LongestTable>, partition_ops: Vec<Vec<Operation<M>>>) -> (r:
        Self)
        requires
            forall|p: int| 0 <= p < all_longest@.len() ==> (#[trigger] all_longest@[p]).wf(),
        ensures
            r.partition_ops@ == partition_ops@,
            r.annotations@.len() == 0,
            r.partial_linearizations@.len() == all_longest@.len(),
            forall|p: int|
                0 <= p < all_longest@.len() ==> {
                    let t = #[trigger] all_longest@[p];
                    &&& r.partial_linearizations@[p]@.len() == first_ids(t.slots@).len()
                    &&& forall|k: int|
                        0 <= k < r.partial_linearizations@[p]@.len() ==> #[trigger] r.partial_linearizations@[p]@[k]@
                            == t.seqs@[first_ids(t.slots@)[k] as int]@
                },
    {
        let ghost tables = all_longest@;
        let mut rest = all_longest;
        let mut reversed: Vec<Vec<Vec<usize>>> = Vec::new();
        while rest.len() > 0
            invariant
                rest@.len() + reversed@.len() == tables.len(),
                rest@ == tables.take(rest@.len() as int),
                forall|p: int| 0 <= p < tables.len() ==> (#[trigger] tables[p]).wf(),
                forall|j: int|
                    0 <= j < reversed@.len() ==> {
                        let t = tables[tables.len() - 1 - j];
                        &&& (#[trigger] reversed@[j])@.len() == first_ids(t.slots@).len()
                        &&& forall|k: int|
                            0 <= k < reversed@[j]@.len() ==> #[trigger] reversed@[j]@[k]@
                                == t.seqs@[first_ids(t.slots@)[k] as int]@
                    },
            decreases rest@.len(),
        {
            let t = rest.pop().unwrap();
            proof {
                assert(t == tables[rest@.len() as int]);
            }
            reversed.push(dedup_sequences(t));
            proof {
                assert(rest@ =~= tables.take(rest@.len() as int));
            }
        }
        let mut partial_linearizations: Vec<Vec<Vec<usize>>> = Vec::new();
        while reversed.len() > 0
            invariant
                partial_linearizations@.len() + reversed@.len() == tables.len(),
                forall|j: int|
                    0 <= j < reversed@.len() ==> {
                        let t = tables[tables.len() - 1 - j];
                        &&& (#[trigger] reversed@[j])@.len() == first_ids(t.slots@).len()
                        &&& forall|k: int|
                            0 <= k < reversed@[j]@.len() ==> #[trigger] reversed@[j]@[k]@
                                == t.seqs@[first_ids(t.slots@)[k] as int]@
                    },
                forall|p: int|
                    0 <= p < partial_linearizations@.len() ==> {
                        let t = tables[p];
                        &&& (#[trigger] partial_linearizations@[p])@.len() == first_ids(
                            t.slots@,
                        ).len()
                        &&& forall|k: int|
                            0 <= k < partial_linearizations@[p]@.len() ==> #[trigger] partial_linearizations@[p]@[k]@
                                == t.seqs@[first_ids(t.slots@)[k] as int]@
                    },
            decreases reversed@.len(),
        {
            let ghost j = reversed@.len() - 1;
            let ghost p = partial_linearizations@.len() as int;
            let v = reversed.pop().unwrap();
            proof {
                assert(tables.len() - 1 - j == p);
            }
            partial_linearizations.push(v);
        }
        Self { partial_linearizations, partition_ops, annotations: Vec::new() }
    }

    /// Add extra annotations that will be rendered in the visualization
    /// alongside the client operations.
    ///
    /// An annotation without an end, or whose end is before its start, is a
    /// point-in-time event at its start.
    pub fn add_annotations(&mut self, annotations: Vec<Annotation>)
        ensures
            final(self).partial_linearizations == old(self).partial_linearizations,
            final(self).partition_ops == old(self).partition_ops,
            final(self).annotations@ == old(self).annotations@ + annotations@.map_values(
                |a: Annotation| clamped(a),
            ),
    {
        let ghost added = annotations@;
        let ghost start = self.annotations@;
        let mut rest = annotations;
        let mut reversed: Vec<Annotation> = Vec::new();
        while rest.len() > 0
            invariant
                rest@.len() + reversed@.len() == added.len(),
                rest@ == added.take(rest@.len() as int),
                forall|j: int|
                    0 <= j < reversed@.len() ==> #[trigger] reversed@[j] == added[added.len() - 1 - j],
            decreases rest@.len(),
        {
            let a = rest.pop().unwrap();
            reversed.push(a);
            proof {
                assert(rest@ =~= added.take(rest@.len() as int));
            }
        }
        while reversed.len() > 0
            invariant
                self.annotations@.len() + reversed@.len() == start.len() + added.len(),
                self.annotations@.len() >= start.len(),
                forall|j: int|
                    0 <= j < reversed@.len() ==> #[trigger] reversed@[j] == added[added.len() - 1 - j],
                self.annotations@ == start + added.take(
                    (self.annotations@.len() - start.len()) as int,
                ).map_values(|a: Annotation| clamped(a)),
                self.partial_linearizations == old(self).partial_linearizations,
                self.partition_ops == old(self).partition_ops,
            decreases reversed@.len(),
        {
            let ghost i = (self.annotations@.len() - start.len()) as int;
            let mut a = reversed.pop().unwrap();
            proof {
                assert(a == added[i]);
            }
            // Clamp: if end is before start, treat as a point-in-time event.
            match a.end {
                Some(end) => {
                    if end < a.start {
                        a.end = Some(a.start);
                    }
                },
                None => {
                    a.end = Some(a.start);
                },
            }
            proof {
                assert(a == clamped(added[i]));
            }
            self.annotations.push(a);
            proof {
                assert(added.take(i + 1).map_values(|a: Annotation| clamped(a)) =~= added.take(
                    i,
                ).map_values(|a: Annotation| clamped(a)).push(clamped(added[i])));
                assert(self.annotations@ =~= start + added.take(i + 1).map_values(
                    |a: Annotation| clamped(a),
                ));
            }
        }
        proof {
            assert(added.take(added.len() as int) =~= added);
        }
    }
}

} // verus!
