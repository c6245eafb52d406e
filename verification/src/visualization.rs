//! The data that the HTML visualization of a check shows: each operation on
//! its client's timeline, the partial linearizations with the model state
//! after each step, and the annotations.
//!
//! Raw time stamps are replaced by their rank among all distinct time
//! stamps, times 100, so that markers can be nudged without crossing a
//! neighbouring time stamp.
use crate::history::runs;
use crate::linearization_info::{Annotation, LinearizationInfo};
use crate::linearizer::as_order;
use crate::model::{Model, Operation};
use std::collections::BTreeMap;
use vstd::prelude::*;
use vstd::string::StringExecFns;

verus! {

broadcast use {vstd::std_specs::btree::group_btree_axioms, vstd::laws_cmp::group_laws_cmp};

#[derive(Debug, Clone, PartialEq, Eq, PartialOrd, Ord)]
pub struct HistoryElement {
    pub client_id: u32,
    pub start: i64,
    pub original_start: String,
    pub end: i64,
    pub original_end: String,
    pub description: String,
    pub metadata: String,
    pub annotation: bool,
}

#[derive(Debug, Clone, PartialEq, Eq, PartialOrd, Ord)]
pub struct LinearizationStep {
    pub index: usize,
    pub state_description: String,
}

#[derive(Debug, Clone, PartialEq, Eq, PartialOrd, Ord)]
pub struct PartitionVisualizationData {
    pub history: Vec<HistoryElement>,
    pub partial_linearizations: Vec<Vec<LinearizationStep>>,
    pub largest: BTreeMap<usize, usize>,
}

#[derive(Debug, Clone, PartialEq, Eq, PartialOrd, Ord)]
pub struct AnnotationElement {
    pub client_id: Option<u32>,
    pub tag: Option<String>,
    pub start: i64,
    pub end: i64,
    pub description: String,
    pub details: String,
    pub annotation: bool,
    pub text_color: String,
    pub background_color: String,
}

#[derive(Debug, Clone, PartialEq, Eq, PartialOrd, Ord)]
pub struct VisualizationData {
    pub partitions: Vec<PartitionVisualizationData>,
    pub annotations: Vec<AnnotationElement>,
}

// ---------------------------------------------------------------------------
// Decimal rendering of time stamps
// ---------------------------------------------------------------------------

/// The decimal digit `d`.
pub open spec fn digit_char(d: nat) -> char {
    (48 + d) as char
}

/// The decimal digits of `n`, most significant first, without leading
/// zeros.
pub open spec fn digits(n: nat) -> Seq<char>
    decreases n,
{
    if n < 10 {
        seq![digit_char(n)]
    } else {
        digits(n / 10).push(digit_char(n % 10))
    }
}

/// `x` in decimal: a minus sign for a negative number, then its digits.
pub open spec fn decimal(x: int) -> Seq<char> {
    if x < 0 {
        seq!['-'] + digits((-x) as nat)
    } else {
        digits(x as nat)
    }
}

/// The decimal digit `d` as text.
fn digit_str(d: u64) -> (s: &'static str)
    requires
        d < 10,
    ensures
        s@ == seq![digit_char(d as nat)],
{
    proof {
        reveal_strlit("0");
        reveal_strlit("1");
        reveal_strlit("2");
        reveal_strlit("3");
        reveal_strlit("4");
        reveal_strlit("5");
        reveal_strlit("6");
        reveal_strlit("7");
        reveal_strlit("8");
        reveal_strlit("9");
    }
    if d == 0 {
        "0"
    } else if d == 1 {
        "1"
    } else if d == 2 {
        "2"
    } else if d == 3 {
        "3"
    } else if d == 4 {
        "4"
    } else if d == 5 {
        "5"
    } else if d == 6 {
        "6"
    } else if d == 7 {
        "7"
    } else if d == 8 {
        "8"
    } else {
        "9"
    }
}

/// Append the decimal digits of `n` to `s`.
fn push_digits(s: &mut String, n: u64)
    ensures
        final(s)@ == old(s)@ + digits(n as nat),
    decreases n,
{
    if n >= 10 {
        push_digits(s, n / 10);
    }
    s.append(digit_str(n % 10));
    proof {
        if n < 10 {
            assert(n % 10 == n);
        }
        assert(s@ =~= old(s)@ + digits(n as nat));
    }
}

/// `x` in decimal, as `ToString::to_string` writes an `i64`: a minus sign
/// when it is negative, then its digits without leading zeros.
fn i64_to_string(x: i64) -> (s: String)
    ensures
        s@ == decimal(x as int),
{
    proof {
        reveal_strlit("-");
    }
    let mut s = String::new();
    if x < 0 {
        s.append("-");
        let m: u64 = (0i128 - x as i128) as u64;
        push_digits(&mut s, m);
        assert(s@ =~= decimal(x as int));
    } else {
        push_digits(&mut s, x as u64);
        assert(s@ =~= decimal(x as int));
    }
    s
}

// ---------------------------------------------------------------------------
// Timestamp mapping
// ---------------------------------------------------------------------------

/// The call and return times of the operations, in order.
pub open spec fn op_times<M: Model>(ops: Seq<Operation<M>>) -> Seq<i64>
    decreases ops.len(),
{
    if ops.len() == 0 {
        Seq::empty()
    } else {
        op_times(ops.drop_last()) + seq![ops.last().call_time, ops.last().return_time]
    }
}

/// The call and return times of the operations of every partition.
pub open spec fn partition_times<M: Model>(parts: Seq<Vec<Operation<M>>>) -> Seq<i64>
    decreases parts.len(),
{
    if parts.len() == 0 {
        Seq::empty()
    } else {
        partition_times(parts.drop_last()) + op_times(parts.last()@)
    }
}

/// The starts and ends of the annotations.
pub open spec fn annotation_times(anns: Seq<Annotation>) -> Seq<i64>
    decreases anns.len(),
{
    if anns.len() == 0 {
        Seq::empty()
    } else {
        annotation_times(anns.drop_last()) + match anns.last().end {
            Some(e) => seq![anns.last().start, e],
            None => seq![anns.last().start],
        }
    }
}

/// Every time stamp that the info mentions: the call and return times of
/// the operations, and the starts and ends of the annotations.
pub open spec fn info_times<M: Model>(info: LinearizationInfo<M>) -> Set<i64> {
    (partition_times(info.partition_ops@) + annotation_times(info.annotations@)).to_set()
}

/// How many of the time stamps come before `t`.
pub open spec fn time_rank(times: Set<i64>, t: i64) -> int {
    times.filter(|u: i64| u < t).len() as int
}

/// Where a time stamp is drawn: its rank among all time stamps, times 100.
pub open spec fn mapped_time(times: Set<i64>, t: i64) -> int {
    100 * time_rank(times, t)
}

/// `s` is strictly increasing.
pub open spec fn increasing(s: Seq<i64>) -> bool {
    forall|a: int, b: int| 0 <= a < b < s.len() ==> #[trigger] s[a] < #[trigger] s[b]
}

/// Every time stamp of the info, in the order of `info_times`, possibly
/// repeated.
fn collect_times<M: Model>(info: &LinearizationInfo<M>) -> (all: Vec<i64>)
    ensures
        all@ == partition_times(info.partition_ops@) + annotation_times(info.annotations@),
{
    let ghost parts = info.partition_ops@;
    let ghost anns = info.annotations@;
    let mut all: Vec<i64> = Vec::new();
    let mut p: usize = 0;
    while p < info.partition_ops.len()
        invariant
            p <= parts.len(),
            parts == info.partition_ops@,
            all@ == partition_times(parts.take(p as int)),
        decreases parts.len() - p,
    {
        let ops = &info.partition_ops[p];
        let ghost before = all@;
        let mut i: usize = 0;
        while i < ops.len()
            invariant
                i <= ops@.len(),
                all@ == before + op_times(ops@.take(i as int)),
            decreases ops@.len() - i,
        {
            proof {
                assert(ops@.take(i + 1).drop_last() =~= ops@.take(i as int));
            }
            all.push(ops[i].call_time);
            all.push(ops[i].return_time);
            proof {
                assert(all@ =~= before + op_times(ops@.take(i + 1)));
            }
            i = i + 1;
        }
        proof {
            assert(ops@.take(ops@.len() as int) =~= ops@);
            assert(parts.take(p + 1).drop_last() =~= parts.take(p as int));
            assert(parts.take(p + 1).last() == parts[p as int]);
            assert(all@ =~= partition_times(parts.take(p + 1)));
        }
        p = p + 1;
    }
    proof {
        assert(parts.take(parts.len() as int) =~= parts);
    }
    let ghost after_ops = all@;
    let mut a: usize = 0;
    while a < info.annotations.len()
        invariant
            a <= anns.len(),
            anns == info.annotations@,
            all@ == after_ops + annotation_times(anns.take(a as int)),
        decreases anns.len() - a,
    {
        let ann = &info.annotations[a];
        proof {
            assert(anns.take(a + 1).drop_last() =~= anns.take(a as int));
            assert(anns.take(a + 1).last() == anns[a as int]);
        }
        all.push(ann.start);
        match ann.end {
            Some(end) => {
                all.push(end);
            },
            None => {},
        }
        proof {
            assert(all@ =~= after_ops + annotation_times(anns.take(a + 1)));
        }
        a = a + 1;
    }
    proof {
        assert(anns.take(anns.len() as int) =~= anns);
    }
    all
}

/// The first position in `keys` whose value is at least `t`.
fn lower_bound(keys: &Vec<i64>, t: i64) -> (j: usize)
    requires
        increasing(keys@),
    ensures
        j <= keys@.len(),
        forall|a: int| 0 <= a < j ==> keys@[a] < t,
        forall|a: int| j <= a < keys@.len() ==> t <= keys@[a],
{
    let mut lo: usize = 0;
    let mut hi: usize = keys.len();
    while lo < hi
        invariant
            lo <= hi <= keys@.len(),
            increasing(keys@),
            forall|a: int| 0 <= a < lo ==> keys@[a] < t,
            forall|a: int| hi <= a < keys@.len() ==> t <= keys@[a],
        decreases hi - lo,
    {
        let mid = lo + (hi - lo) / 2;
        if keys[mid] < t {
            proof {
                assert forall|a: int| 0 <= a < mid + 1 implies keys@[a] < t by {
                    if a < mid {
                        assert(keys@[a] < keys@[mid as int]);
                    }
                }
            }
            lo = mid + 1;
        } else {
            proof {
                assert forall|a: int| mid <= a < keys@.len() implies t <= keys@[a] by {
                    if a > mid {
                        assert(keys@[mid as int] < keys@[a]);
                    }
                }
            }
            hi = mid;
        }
    }
    lo
}

/// The distinct values of `all`, in increasing order.
fn sorted_distinct(all: &Vec<i64>) -> (keys: Vec<i64>)
    ensures
        increasing(keys@),
        forall|t: i64| keys@.contains(t) <==> all@.contains(t),
{
    let mut keys: Vec<i64> = Vec::new();
    let mut k: usize = 0;
    while k < all.len()
        invariant
            k <= all@.len(),
            increasing(keys@),
            forall|t: i64| keys@.contains(t) <==> all@.take(k as int).contains(t),
        decreases all@.len() - k,
    {
        let x = all[k];
        let j = lower_bound(&keys, x);
        let ghost before = keys@;
        let ghost s0 = all@.take(k as int);
        let ghost s1 = all@.take(k + 1);
        proof {
            assert(s1 =~= s0.push(x));
        }
        if j < keys.len() && keys[j] == x {
            proof {
                assert forall|t: i64| keys@.contains(t) <==> s1.contains(t) by {
                    if t == x {
                        assert(keys@[j as int] == t);
                    }
                    if s1.contains(t) && t != x {
                        let w = choose|w: int| 0 <= w < k + 1 && s1[w] == t;
                        assert(s0[w] == t);
                    }
                    if keys@.contains(t) {
                        assert(s0.contains(t));
                        let w = choose|w: int| 0 <= w < k && s0[w] == t;
                        assert(s1[w] == t);
                    }
                }
            }
        } else {
            keys.insert(j, x);
            proof {
                assert forall|a: int, b: int| 0 <= a < b < keys@.len() implies #[trigger] keys@[a]
                    < #[trigger] keys@[b] by {
                    if b < j {
                        assert(keys@[a] == before[a] && keys@[b] == before[b]);
                    } else if b == j {
                        assert(keys@[a] == before[a]);
                    } else if a < j {
                        assert(keys@[a] == before[a] && keys@[b] == before[b - 1]);
                        assert(x <= before[b - 1]);
                        if j < before.len() {
                            assert(before[j as int] != x);
                        }
                        if b - 1 > j {
                            assert(before[j as int] < before[b - 1]);
                        }
                    } else if a == j {
                        assert(keys@[b] == before[b - 1]);
                        if b - 1 == j {
                            assert(before[j as int] != x);
                        } else {
                            assert(before[j as int] < before[b - 1]);
                            assert(x <= before[j as int]);
                        }
                    } else {
                        assert(keys@[a] == before[a - 1] && keys@[b] == before[b - 1]);
                    }
                }
                assert forall|t: i64| keys@.contains(t) <==> s1.contains(t) by {
                    if keys@.contains(t) {
                        let w = choose|w: int| 0 <= w < keys@.len() && keys@[w] == t;
                        if w < j {
                            assert(before[w] == t);
                        } else if w > j {
                            assert(before[w - 1] == t);
                        }
                        if t != x {
                            assert(before.contains(t));
                            assert(s0.contains(t));
                            let v = choose|v: int| 0 <= v < k && s0[v] == t;
                            assert(s1[v] == t);
                        } else {
                            assert(s1[k as int] == t);
                        }
                    }
                    if s1.contains(t) {
                        if t == x {
                            assert(keys@[j as int] == t);
                        } else {
                            let v = choose|v: int| 0 <= v < k + 1 && s1[v] == t;
                            assert(s0[v] == t);
                            assert(before.contains(t));
                            let w = choose|w: int| 0 <= w < before.len() && before[w] == t;
                            if w < j {
                                assert(keys@[w] == t);
                            } else {
                                assert(keys@[w + 1] == t);
                            }
                        }
                    }
                }
            }
        }
        proof {
            assert(s1 == all@.take(k + 1));
        }
        k = k + 1;
    }
    proof {
        assert(all@.take(all@.len() as int) =~= all@);
    }
    keys
}

/// In an increasing list of all the time stamps, each one stands at its
/// rank.
proof fn lemma_rank(keys: Seq<i64>, times: Set<i64>, i: int)
    requires
        increasing(keys),
        forall|t: i64| keys.contains(t) <==> times.contains(t),
        0 <= i < keys.len(),
    ensures
        time_rank(times, keys[i]) == i,
{
    let below = keys.take(i);
    assert(times.filter(|u: i64| u < keys[i]) =~= below.to_set()) by {
        assert forall|u: i64| times.filter(|u: i64| u < keys[i]).contains(u) implies below.to_set().contains(u) by {
            assert(keys.contains(u));
            let w = choose|w: int| 0 <= w < keys.len() && keys[w] == u;
            if w >= i {
                if w > i {
                    assert(keys[i] < keys[w]);
                }
            }
            assert(below[w] == u);
        }
        assert forall|u: i64| below.to_set().contains(u) implies times.filter(|u: i64| u < keys[i]).contains(u) by {
            let w = choose|w: int| 0 <= w < below.len() && below[w] == u;
            assert(keys[w] == u);
            assert(keys.contains(u));
            assert(keys[w] < keys[i]);
        }
    }
    assert(below.no_duplicates()) by {
        assert forall|a: int, b: int| 0 <= a < below.len() && 0 <= b < below.len() && a != b implies below[a] != below[b] by {
            if a < b {
                assert(keys[a] < keys[b]);
            } else {
                assert(keys[b] < keys[a]);
            }
        }
    }
    below.unique_seq_to_set();
}

/// The position of `t` in `keys`.
fn position_of(keys: &Vec<i64>, t: i64) -> (j: usize)
    requires
        increasing(keys@),
        keys@.contains(t),
    ensures
        j < keys@.len(),
        keys@[j as int] == t,
{
    let j = lower_bound(keys, t);
    proof {
        let w = choose|w: int| 0 <= w < keys@.len() && keys@[w] == t;
        assert(w >= j);
        if w > j {
            assert(keys@[j as int] < keys@[w]);
        }
    }
    j
}

/// Where `t` is drawn, given the increasing list of all time stamps.
fn map_time(keys: &Vec<i64>, t: i64, Ghost(times): Ghost<Set<i64>>) -> (r: i64)
    requires
        increasing(keys@),
        forall|u: i64| keys@.contains(u) <==> times.contains(u),
        times.contains(t),
        keys@.len() * 100 <= i64::MAX,
    ensures
        r == mapped_time(times, t),
{
    let j = position_of(keys, t);
    proof {
        lemma_rank(keys@, times, j as int);
    }
    (j as i64) * 100
}

// ---------------------------------------------------------------------------
// Where the time stamps come from
// ---------------------------------------------------------------------------

/// The times of each operation are among `op_times`.
proof fn lemma_op_times<M: Model>(ops: Seq<Operation<M>>, i: int)
    requires
        0 <= i < ops.len(),
    ensures
        op_times(ops).contains(ops[i].call_time),
        op_times(ops).contains(ops[i].return_time),
    decreases ops.len(),
{
    let prev = op_times(ops.drop_last());
    let last = seq![ops.last().call_time, ops.last().return_time];
    assert(op_times(ops) == prev + last);
    if i == ops.len() - 1 {
        assert((prev + last)[prev.len() as int] == ops[i].call_time);
        assert((prev + last)[prev.len() as int + 1] == ops[i].return_time);
    } else {
        assert(ops.drop_last()[i] == ops[i]);
        lemma_op_times(ops.drop_last(), i);
        let w1 = choose|w: int| 0 <= w < prev.len() && prev[w] == ops[i].call_time;
        let w2 = choose|w: int| 0 <= w < prev.len() && prev[w] == ops[i].return_time;
        assert((prev + last)[w1] == ops[i].call_time);
        assert((prev + last)[w2] == ops[i].return_time);
    }
}

/// The times of each operation of each partition are among
/// `partition_times`.
proof fn lemma_partition_times<M: Model>(parts: Seq<Vec<Operation<M>>>, p: int, i: int)
    requires
        0 <= p < parts.len(),
        0 <= i < parts[p]@.len(),
    ensures
        partition_times(parts).contains(parts[p]@[i].call_time),
        partition_times(parts).contains(parts[p]@[i].return_time),
    decreases parts.len(),
{
    let prev = partition_times(parts.drop_last());
    let last = op_times(parts.last()@);
    assert(partition_times(parts) == prev + last);
    let (c, r) = (parts[p]@[i].call_time, parts[p]@[i].return_time);
    if p == parts.len() - 1 {
        lemma_op_times(parts[p]@, i);
        let w1 = choose|w: int| 0 <= w < last.len() && last[w] == c;
        let w2 = choose|w: int| 0 <= w < last.len() && last[w] == r;
        assert((prev + last)[prev.len() + w1] == c);
        assert((prev + last)[prev.len() + w2] == r);
    } else {
        assert(parts.drop_last()[p] == parts[p]);
        lemma_partition_times(parts.drop_last(), p, i);
        let w1 = choose|w: int| 0 <= w < prev.len() && prev[w] == c;
        let w2 = choose|w: int| 0 <= w < prev.len() && prev[w] == r;
        assert((prev + last)[w1] == c);
        assert((prev + last)[w2] == r);
    }
}

/// The start and end of each annotation are among `annotation_times`.
proof fn lemma_annotation_times(anns: Seq<Annotation>, a: int)
    requires
        0 <= a < anns.len(),
    ensures
        annotation_times(anns).contains(anns[a].start),
        anns[a].end matches Some(e) ==> annotation_times(anns).contains(e),
    decreases anns.len(),
{
    let prev = annotation_times(anns.drop_last());
    let last = match anns.last().end {
        Some(e) => seq![anns.last().start, e],
        None => seq![anns.last().start],
    };
    assert(annotation_times(anns) == prev + last);
    if a == anns.len() - 1 {
        assert((prev + last)[prev.len() as int] == anns[a].start);
        if anns[a].end is Some {
            assert((prev + last)[prev.len() as int + 1] == anns[a].end->0);
        }
    } else {
        assert(anns.drop_last()[a] == anns[a]);
        lemma_annotation_times(anns.drop_last(), a);
        let w1 = choose|w: int| 0 <= w < prev.len() && prev[w] == anns[a].start;
        assert((prev + last)[w1] == anns[a].start);
        if anns[a].end is Some {
            let w2 = choose|w: int| 0 <= w < prev.len() && prev[w] == anns[a].end->0;
            assert((prev + last)[w2] == anns[a].end->0);
        }
    }
}

/// The times of each operation of the info are among its time stamps.
proof fn lemma_info_op_times<M: Model>(info: LinearizationInfo<M>, p: int, i: int)
    requires
        0 <= p < info.partition_ops@.len(),
        0 <= i < info.partition_ops@[p]@.len(),
    ensures
        info_times(info).contains(info.partition_ops@[p]@[i].call_time),
        info_times(info).contains(info.partition_ops@[p]@[i].return_time),
{
    let pt = partition_times(info.partition_ops@);
    let at = annotation_times(info.annotations@);
    lemma_partition_times(info.partition_ops@, p, i);
    let w1 = choose|w: int| 0 <= w < pt.len() && pt[w] == info.partition_ops@[p]@[i].call_time;
    let w2 = choose|w: int| 0 <= w < pt.len() && pt[w] == info.partition_ops@[p]@[i].return_time;
    assert((pt + at)[w1] == pt[w1]);
    assert((pt + at)[w2] == pt[w2]);
}

/// The start and end of each annotation of the info are among its time
/// stamps.
proof fn lemma_info_annotation_times<M: Model>(info: LinearizationInfo<M>, a: int)
    requires
        0 <= a < info.annotations@.len(),
    ensures
        info_times(info).contains(info.annotations@[a].start),
        info.annotations@[a].end matches Some(e) ==> info_times(info).contains(e),
{
    let pt = partition_times(info.partition_ops@);
    let at = annotation_times(info.annotations@);
    lemma_annotation_times(info.annotations@, a);
    let w1 = choose|w: int| 0 <= w < at.len() && at[w] == info.annotations@[a].start;
    assert((pt + at)[pt.len() + w1] == at[w1]);
    if info.annotations@[a].end is Some {
        let w2 = choose|w: int| 0 <= w < at.len() && at[w] == info.annotations@[a].end->0;
        assert((pt + at)[pt.len() + w2] == at[w2]);
    }
}

// ---------------------------------------------------------------------------
// Partial linearizations, longest first
// ---------------------------------------------------------------------------

/// Sequence `a` is listed before sequence `b`: it is longer, or as long and
/// earlier.
pub open spec fn ranked_before(seqs: Seq<Seq<usize>>, a: int, b: int) -> bool {
    seqs[a].len() > seqs[b].len() || (seqs[a].len() == seqs[b].len() && a < b)
}

/// `order` lists every sequence once, longest first, and equally long ones
/// in the order they are given.
pub open spec fn is_longest_first(seqs: Seq<Seq<usize>>, order: Seq<usize>) -> bool {
    &&& order.len() == seqs.len()
    &&& forall|j: int| 0 <= j < order.len() ==> #[trigger] order[j] < seqs.len()
    &&& forall|x: usize| x < seqs.len() ==> #[trigger] order.contains(x)
    &&& forall|a: int, b: int|
        0 <= a < b < order.len() ==> ranked_before(seqs, #[trigger] order[a] as int, #[trigger] order[b] as int)
}

/// The contents of each sequence.
pub open spec fn seqs_view(seqs: Seq<Vec<usize>>) -> Seq<Seq<usize>> {
    seqs.map_values(|v: Vec<usize>| v@)
}

/// The positions of the sequences, longest first.
fn longest_first(seqs: &Vec<Vec<usize>>) -> (order: Vec<usize>)
    ensures
        is_longest_first(seqs_view(seqs@), order@),
{
    let ghost sv = seqs_view(seqs@);
    let mut order: Vec<usize> = Vec::new();
    let mut k: usize = 0;
    while k < seqs.len()
        invariant
            k <= seqs@.len(),
            sv == seqs_view(seqs@),
            order@.len() == k,
            forall|j: int| 0 <= j < order@.len() ==> #[trigger] order@[j] < k,
            forall|x: usize| x < k ==> #[trigger] order@.contains(x),
            forall|a: int, b: int|
                0 <= a < b < order@.len() ==> ranked_before(sv, #[trigger] order@[a] as int, #[trigger] order@[b] as int),
        decreases seqs@.len() - k,
    {
        let len_k = seqs[k].len();
        let mut j: usize = 0;
        while j < order.len() && seqs[order[j]].len() >= len_k
            invariant
                j <= order@.len(),
                k < seqs@.len(),
                len_k == sv[k as int].len(),
                sv == seqs_view(seqs@),
                forall|i: int| 0 <= i < order@.len() ==> #[trigger] order@[i] < k,
                forall|a: int| 0 <= a < j ==> sv[order@[a] as int].len() >= len_k,
            decreases order@.len() - j,
        {
            j = j + 1;
        }
        let ghost before = order@;
        proof {
            if j < before.len() {
                assert(sv[before[j as int] as int].len() < len_k);
                assert forall|a: int| j <= a < before.len() implies sv[before[a] as int].len() < len_k by {
                    if a > j {
                        assert(ranked_before(sv, before[j as int] as int, before[a] as int));
                    }
                }
            }
        }
        order.insert(j, k);
        proof {
            assert forall|a: int, b: int| 0 <= a < b < order@.len() implies ranked_before(
                sv,
                #[trigger] order@[a] as int,
                #[trigger] order@[b] as int,
            ) by {
                if b < j {
                    assert(order@[a] == before[a] && order@[b] == before[b]);
                } else if b == j {
                    assert(order@[a] == before[a]);
                    assert(before[a] < k);
                } else if a < j {
                    assert(order@[a] == before[a] && order@[b] == before[b - 1]);
                } else if a == j {
                    assert(order@[b] == before[b - 1]);
                } else {
                    assert(order@[a] == before[a - 1] && order@[b] == before[b - 1]);
                }
            }
            assert forall|x: usize| x < k + 1 implies #[trigger] order@.contains(x) by {
                if x == k {
                    assert(order@[j as int] == k);
                } else {
                    assert(before.contains(x));
                    let w = choose|w: int| 0 <= w < before.len() && before[w] == x;
                    if w < j {
                        assert(order@[w] == x);
                    } else {
                        assert(order@[w + 1] == x);
                    }
                }
            }
            assert forall|i: int| 0 <= i < order@.len() implies #[trigger] order@[i] < k + 1 by {
                if i < j {
                    assert(order@[i] == before[i]);
                } else if i > j {
                    assert(order@[i] == before[i - 1]);
                }
            }
        }
        k = k + 1;
    }
    order
}

/// The positions of the operations along the steps.
pub open spec fn step_indices(steps: Seq<LinearizationStep>) -> Seq<usize> {
    steps.map_values(|s: LinearizationStep| s.index)
}

/// The model state after the first `k` operations of `order`, from the
/// initial state.
pub open spec fn state_after<M: Model>(ops: Seq<Operation<M>>, order: Seq<int>, k: int) -> M::State
    decreases k,
{
    if k <= 0 {
        M::init_spec()
    } else {
        M::step_spec(state_after(ops, order, k - 1), ops[order[k - 1]].op).1
    }
}

/// Every entry of `order` is an operation of `ops`, and the model accepts
/// each from the state that the entries before it lead to, starting at
/// `state`.
pub open spec fn accepted_from<M: Model>(ops: Seq<Operation<M>>, state: M::State, order: Seq<int>) -> bool
    decreases order.len(),
{
    if order.len() == 0 {
        true
    } else {
        let (ok, next) = M::step_spec(state, ops[order[0]].op);
        &&& 0 <= order[0] < ops.len()
        &&& ok
        &&& accepted_from(ops, next, order.drop_first())
    }
}

/// The model accepts the operations of `seq`, in that order, from its
/// initial state: what drawing the steps of `seq` needs.
pub open spec fn replayable<M: Model>(ops: Seq<Operation<M>>, seq: Seq<usize>) -> bool {
    accepted_from(ops, M::init_spec(), as_order(seq))
}

/// An order that runs from a state is accepted from it.
pub proof fn lemma_runs_accepted<M: Model>(ops: Seq<Operation<M>>, done: Set<int>, state: M::State, order: Seq<int>)
    requires
        runs(ops, done, state, order),
    ensures
        accepted_from(ops, state, order),
    decreases order.len(),
{
    if order.len() > 0 {
        let (ok, next) = M::step_spec(state, ops[order[0]].op);
        lemma_runs_accepted(ops, done.insert(order[0]), next, order.drop_first());
    }
}

/// Whether the model accepts the operations of `seq` in that order from its
/// initial state.
fn replays<M: Model>(ops: &Vec<Operation<M>>, seq: &Vec<usize>) -> (r: bool)
    ensures
        r == replayable(ops@, seq@),
{
    let ghost order = as_order(seq@);
    let mut state = M::init();
    let mut k: usize = 0;
    proof {
        assert(order.skip(0) =~= order);
    }
    while k < seq.len()
        invariant
            k <= seq@.len(),
            order == as_order(seq@),
            replayable(ops@, seq@) == accepted_from(ops@, state, order.skip(k as int)),
        decreases seq@.len() - k,
    {
        let op_idx = seq[k];
        proof {
            assert(order.skip(k as int)[0] == op_idx as int);
            assert(order.skip(k as int).drop_first() =~= order.skip(k + 1));
        }
        if op_idx >= ops.len() {
            return false;
        }
        let (ok, next_state) = M::step(&state, &ops[op_idx].op);
        if !ok {
            return false;
        }
        state = next_state;
        k = k + 1;
    }
    true
}

/// The steps of `seq`, each with a description that the model's
/// `describe_state` gives of the state after that step.
pub open spec fn described_steps<M: Model>(
    steps: Seq<LinearizationStep>,
    ops: Seq<Operation<M>>,
    seq: Seq<usize>,
) -> bool {
    &&& step_indices(steps) == seq
    &&& forall|j: int|
        0 <= j < steps.len() ==> call_ensures(
            M::describe_state,
            (&state_after(ops, as_order(seq), j + 1),),
            #[trigger] steps[j].state_description,
        )
}

/// Replay a partial linearization, describing the model state after each
/// step.
fn replay<M: Model>(ops: &Vec<Operation<M>>, seq: &Vec<usize>) -> (steps: Vec<LinearizationStep>)
    requires
        replayable(ops@, seq@),
    ensures
        described_steps(steps@, ops@, seq@),
{
    let ghost order = as_order(seq@);
    let mut state = M::init();
    let mut steps: Vec<LinearizationStep> = Vec::new();
    let mut k: usize = 0;
    proof {
        assert(order.skip(0) =~= order);
    }
    while k < seq.len()
        invariant
            k <= seq@.len(),
            order == as_order(seq@),
            accepted_from(ops@, state, order.skip(k as int)),
            steps@.len() == k,
            forall|j: int| 0 <= j < k ==> (#[trigger] steps@[j]).index == seq@[j],
            state == state_after(ops@, order, k as int),
            forall|j: int|
                0 <= j < k ==> call_ensures(
                    M::describe_state,
                    (&state_after(ops@, order, j + 1),),
                    #[trigger] steps@[j].state_description,
                ),
        decreases seq@.len() - k,
    {
        let op_idx = seq[k];
        proof {
            assert(order.skip(k as int)[0] == order[k as int]);
            assert(order[k as int] == op_idx as int);
        }
        let (ok, next_state) = M::step(&state, &ops[op_idx].op);
        proof {
            assert(order.skip(k as int).drop_first() =~= order.skip(k + 1));
        }
        state = next_state;
        let describe = M::describe_state;
        let state_description = describe(&state);
        steps.push(LinearizationStep { index: op_idx, state_description });
        k = k + 1;
    }
    proof {
        assert(step_indices(steps@) =~= seq@);
    }
    steps
}

/// `largest` sends each operation that a listed linearization holds to the
/// first listed linearization that holds it.
pub open spec fn first_holding(lins: Seq<Vec<LinearizationStep>>, largest: Map<usize, usize>) -> bool {
    &&& forall|i: usize|
        #[trigger] largest.contains_key(i) <==> exists|j: int|
            0 <= j < lins.len() && #[trigger] step_indices(lins[j]@).contains(i)
    &&& forall|i: usize|
        #[trigger] largest.contains_key(i) ==> {
            let j = largest[i] as int;
            &&& 0 <= j < lins.len()
            &&& step_indices(lins[j]@).contains(i)
            &&& forall|j2: int| 0 <= j2 < j ==> !#[trigger] step_indices(lins[j2]@).contains(i)
        }
}

/// For each operation, the first of the linearizations, longest first,
/// that holds it.
fn first_holders(lins: &Vec<Vec<LinearizationStep>>) -> (largest: BTreeMap<usize, usize>)
    requires
        forall|a: int, b: int| 0 <= a < b < lins@.len() ==> #[trigger] lins@[a]@.len() >= #[trigger] lins@[b]@.len(),
    ensures
        first_holding(lins@, largest@),
{
    let mut largest: BTreeMap<usize, usize> = BTreeMap::new();
    let mut largest_size: BTreeMap<usize, usize> = BTreeMap::new();
    let mut j: usize = 0;
    while j < lins.len()
        invariant
            j <= lins@.len(),
            forall|a: int, b: int| 0 <= a < b < lins@.len() ==> #[trigger] lins@[a]@.len() >= #[trigger] lins@[b]@.len(),
            forall|i: usize| #[trigger] largest_size@.contains_key(i) <==> largest@.contains_key(i),
            first_holding(lins@.take(j as int), largest@),
            forall|i: usize|
                #[trigger] largest@.contains_key(i) ==> largest_size@[i] == lins@[largest@[i] as int]@.len(),
        decreases lins@.len() - j,
    {
        let steps = &lins[j];
        let len = steps.len();
        let ghost before = largest@;
        let mut k: usize = 0;
        while k < steps.len()
            invariant
                k <= steps@.len(),
                j < lins@.len(),
                *steps == lins@[j as int],
                len == steps@.len(),
                forall|a: int, b: int| 0 <= a < b < lins@.len() ==> #[trigger] lins@[a]@.len() >= #[trigger] lins@[b]@.len(),
                first_holding(lins@.take(j as int), before),
                forall|i: usize| #[trigger] largest_size@.contains_key(i) <==> largest@.contains_key(i),
                forall|i: usize|
                    #[trigger] largest@.contains_key(i) ==> largest_size@[i] == lins@[largest@[i] as int]@.len(),
                forall|i: usize|
                    #[trigger] largest@.contains_key(i) <==> before.contains_key(i)
                        || step_indices(steps@).take(k as int).contains(i),
                forall|i: usize| #[trigger] before.contains_key(i) ==> largest@[i] == before[i],
                forall|i: usize|
                    #[trigger] largest@.contains_key(i) && !before.contains_key(i) ==> largest@[i] == j,
            decreases steps@.len() - k,
        {
            let op_idx = steps[k].index;
            let current = match largest_size.get(&op_idx) {
                Some(size) => *size,
                None => 0,
            };
            proof {
                if before.contains_key(op_idx) {
                    let jj = before[op_idx] as int;
                    assert(jj < j);
                    assert(lins@[jj]@.len() >= lins@[j as int]@.len());
                }
            }
            if len > current {
                proof {
                    assert(!largest@.contains_key(op_idx) || largest@[op_idx] == j);
                }
                largest_size.insert(op_idx, len);
                largest.insert(op_idx, j);
            }
            proof {
                let si = step_indices(steps@);
                assert(si.take(k + 1) =~= si.take(k as int).push(op_idx));
                assert(si[k as int] == op_idx);
                if len <= current {
                    assert(largest@.contains_key(op_idx));
                }
                assert forall|i: usize| #[trigger] largest@.contains_key(i) <==> before.contains_key(i)
                    || si.take(k + 1).contains(i) by {
                    let s0 = si.take(k as int);
                    let s1 = si.take(k + 1);
                    if s0.contains(i) {
                        let w = choose|w: int| 0 <= w < s0.len() && s0[w] == i;
                        assert(s1[w] == i);
                    }
                    if s1.contains(i) && i != op_idx {
                        let w = choose|w: int| 0 <= w < s1.len() && s1[w] == i;
                        assert(w < k);
                        assert(s0[w] == i);
                    }
                    if i == op_idx {
                        assert(s1[k as int] == i);
                    }
                }
            }
            k = k + 1;
        }
        proof {
            let si = step_indices(steps@);
            assert(si.take(si.len() as int) =~= si);
            let t0 = lins@.take(j as int);
            let t1 = lins@.take(j + 1);
            assert forall|i: usize|
                #[trigger] largest@.contains_key(i) <==> exists|jj: int|
                    0 <= jj < t1.len() && #[trigger] step_indices(t1[jj]@).contains(i) by {
                if largest@.contains_key(i) {
                    if before.contains_key(i) {
                        let jj = choose|jj: int| 0 <= jj < t0.len() && #[trigger] step_indices(t0[jj]@).contains(i);
                        assert(t1[jj] == t0[jj]);
                    } else {
                        assert(t1[j as int] == lins@[j as int]);
                        assert(step_indices(t1[j as int]@).contains(i));
                    }
                }
                if exists|jj: int| 0 <= jj < t1.len() && #[trigger] step_indices(t1[jj]@).contains(i) {
                    let jj = choose|jj: int| 0 <= jj < t1.len() && #[trigger] step_indices(t1[jj]@).contains(i);
                    if jj < j {
                        assert(t0[jj] == t1[jj]);
                        assert(step_indices(t0[jj]@).contains(i));
                    } else {
                        assert(t1[jj] == lins@[j as int]);
                    }
                }
            }
            assert forall|i: usize| #[trigger] largest@.contains_key(i) implies {
                let jj = largest@[i] as int;
                &&& 0 <= jj < t1.len()
                &&& step_indices(t1[jj]@).contains(i)
                &&& forall|j2: int| 0 <= j2 < jj ==> !#[trigger] step_indices(t1[j2]@).contains(i)
            } by {
                if before.contains_key(i) {
                    let jj = before[i] as int;
                    assert(t1[jj] == t0[jj]);
                    assert forall|j2: int| 0 <= j2 < jj implies !#[trigger] step_indices(t1[j2]@).contains(i) by {
                        assert(t1[j2] == t0[j2]);
                    }
                } else {
                    assert(t1[j as int] == lins@[j as int]);
                    assert forall|j2: int| 0 <= j2 < j implies !#[trigger] step_indices(t1[j2]@).contains(i) by {
                        assert(t1[j2] == t0[j2]);
                        if step_indices(t0[j2]@).contains(i) {
                            assert(before.contains_key(i));
                        }
                    }
                }
            }
        }
        j = j + 1;
    }
    proof {
        assert(lins@.take(lins@.len() as int) =~= lins@);
    }
    largest
}

// ---------------------------------------------------------------------------
// Core data builder
// ---------------------------------------------------------------------------

/// The history element of `op`: its client (0 when it has none), and its
/// call and return times, where they are drawn and as written.
pub open spec fn history_element_of<M: Model>(e: HistoryElement, op: Operation<M>, times: Set<i64>) -> bool {
    &&& e.client_id == match op.client_id {
        Some(c) => c,
        None => 0,
    }
    &&& e.start == mapped_time(times, op.call_time)
    &&& e.original_start@ == decimal(op.call_time as int)
    &&& e.end == mapped_time(times, op.return_time)
    &&& e.original_end@ == decimal(op.return_time as int)
    &&& call_ensures(M::describe_operation, (&op.op,), e.description)
    &&& call_ensures(M::describe_metadata, (metadata_ref(&op.metadata),), e.metadata)
    &&& !e.annotation
}

/// The metadata, if any, by reference.
pub open spec fn metadata_ref<T>(m: &Option<T>) -> Option<&T> {
    match m {
        Some(x) => Some(x),
        None => None,
    }
}

/// The visualization data of a partition with operations `ops` and partial
/// linearizations `seqs`: one history element per operation, the partial
/// linearizations longest first, and for each operation the first of them
/// that holds it.
pub open spec fn partition_data_of<M: Model>(
    d: PartitionVisualizationData,
    ops: Seq<Operation<M>>,
    seqs: Seq<Seq<usize>>,
    times: Set<i64>,
) -> bool {
    &&& d.history@.len() == ops.len()
    &&& forall|i: int| 0 <= i < ops.len() ==> history_element_of(#[trigger] d.history@[i], ops[i], times)
    &&& d.partial_linearizations@.len() == seqs.len()
    &&& exists|order: Seq<usize>|
        #[trigger] is_longest_first(seqs, order) && forall|j: int|
            0 <= j < seqs.len() ==> described_steps(
                #[trigger] d.partial_linearizations@[j]@,
                ops,
                seqs[order[j] as int],
            )
    &&& first_holding(d.partial_linearizations@, d.largest@)
}

/// The element of annotation `a`: its fields, with its start and end drawn
/// where their time stamps are (an annotation without an end ends at its
/// start).
pub open spec fn annotation_element_of(e: AnnotationElement, a: Annotation, times: Set<i64>) -> bool {
    &&& e.client_id == a.client_id
    &&& e.tag == a.tag
    &&& e.start == mapped_time(times, a.start)
    &&& e.end == mapped_time(
        times,
        match a.end {
            Some(end) => end,
            None => a.start,
        },
    )
    &&& e.description == a.description
    &&& e.details == a.details
    &&& e.annotation
    &&& e.text_color == a.text_color
    &&& e.background_color == a.background_color
}

/// The call and return times of the operations are among `times`.
pub open spec fn times_cover<M: Model>(ops: Seq<Operation<M>>, times: Set<i64>) -> bool {
    forall|i: int|
        0 <= i < ops.len() ==> times.contains(#[trigger] ops[i].call_time) && times.contains(
            ops[i].return_time,
        )
}

/// The history elements of the operations.
fn history_elements<M: Model>(ops: &Vec<Operation<M>>, keys: &Vec<i64>, Ghost(times): Ghost<Set<i64>>) -> (r: Vec<
    HistoryElement,
>)
    requires
        increasing(keys@),
        forall|u: i64| keys@.contains(u) <==> times.contains(u),
        times_cover(ops@, times),
        keys@.len() * 100 <= i64::MAX,
    ensures
        r@.len() == ops@.len(),
        forall|i: int| 0 <= i < ops@.len() ==> history_element_of(#[trigger] r@[i], ops@[i], times),
{
    let mut history: Vec<HistoryElement> = Vec::new();
    let mut i: usize = 0;
    while i < ops.len()
        invariant
            i <= ops@.len(),
            increasing(keys@),
            forall|u: i64| keys@.contains(u) <==> times.contains(u),
            times_cover(ops@, times),
            keys@.len() * 100 <= i64::MAX,
            history@.len() == i,
            forall|j: int| 0 <= j < i ==> history_element_of(#[trigger] history@[j], ops@[j], times),
        decreases ops@.len() - i,
    {
        let op = &ops[i];
        let client_id = match op.client_id {
            Some(c) => c,
            None => 0,
        };
        let start = map_time(keys, op.call_time, Ghost(times));
        let end = map_time(keys, op.return_time, Ghost(times));
        let describe_operation = M::describe_operation;
        let describe_metadata = M::describe_metadata;
        let metadata: Option<&M::Metadata> = match &op.metadata {
            Some(m) => Some(m),
            None => None,
        };
        let description = describe_operation(&op.op);
        let metadata = describe_metadata(metadata);
        history.push(
            HistoryElement {
                client_id,
                start,
                original_start: i64_to_string(op.call_time),
                end,
                original_end: i64_to_string(op.return_time),
                description,
                metadata,
                annotation: false,
            },
        );
        i = i + 1;
    }
    history
}

/// The visualization data of one partition: its operations on their
/// clients' timelines, its partial linearizations longest first with the
/// model state after each step, and for each operation the first of them
/// that holds it.
fn build_partition_data<M: Model>(
    ops: &Vec<Operation<M>>,
    seqs: &Vec<Vec<usize>>,
    keys: &Vec<i64>,
    Ghost(times): Ghost<Set<i64>>,
) -> (d: PartitionVisualizationData)
    requires
        increasing(keys@),
        forall|u: i64| keys@.contains(u) <==> times.contains(u),
        times_cover(ops@, times),
        keys@.len() * 100 <= i64::MAX,
        forall|k: int| 0 <= k < seqs@.len() ==> replayable(ops@, #[trigger] seqs@[k]@),
    ensures
        partition_data_of(d, ops@, seqs_view(seqs@), times),
{
    let history = history_elements(ops, keys, Ghost(times));
    let ghost sv = seqs_view(seqs@);
    let order = longest_first(seqs);
    let mut lins: Vec<Vec<LinearizationStep>> = Vec::new();
    let mut j: usize = 0;
    while j < order.len()
        invariant
            j <= order@.len(),
            sv == seqs_view(seqs@),
            is_longest_first(sv, order@),
            forall|k: int| 0 <= k < seqs@.len() ==> replayable(ops@, #[trigger] seqs@[k]@),
            lins@.len() == j,
            forall|a: int| 0 <= a < j ==> described_steps(#[trigger] lins@[a]@, ops@, sv[order@[a] as int]),
        decreases order@.len() - j,
    {
        let idx = order[j];
        proof {
            assert(order@[j as int] < sv.len());
        }
        let steps = replay(ops, &seqs[idx]);
        lins.push(steps);
        j = j + 1;
    }
    proof {
        assert forall|a: int, b: int| 0 <= a < b < lins@.len() implies #[trigger] lins@[a]@.len()
            >= #[trigger] lins@[b]@.len() by {
            assert(ranked_before(sv, order@[a] as int, order@[b] as int));
            assert(step_indices(lins@[a]@).len() == lins@[a]@.len());
            assert(step_indices(lins@[b]@).len() == lins@[b]@.len());
        }
    }
    let largest = first_holders(&lins);
    let d = PartitionVisualizationData { history, partial_linearizations: lins, largest };
    proof {
        assert(is_longest_first(sv, order@));
    }
    d
}

/// The element of one annotation.
fn build_annotation(a: &Annotation, keys: &Vec<i64>, Ghost(times): Ghost<Set<i64>>) -> (e: AnnotationElement)
    requires
        increasing(keys@),
        forall|u: i64| keys@.contains(u) <==> times.contains(u),
        times.contains(a.start),
        a.end matches Some(end) ==> times.contains(end),
        keys@.len() * 100 <= i64::MAX,
    ensures
        annotation_element_of(e, *a, times),
{
    let end = match a.end {
        Some(end) => end,
        None => a.start,
    };
    let tag = match &a.tag {
        Some(t) => Some(t.clone()),
        None => None,
    };
    AnnotationElement {
        client_id: a.client_id,
        tag,
        start: map_time(keys, a.start, Ghost(times)),
        end: map_time(keys, end, Ghost(times)),
        description: a.description.clone(),
        details: a.details.clone(),
        annotation: true,
        text_color: a.text_color.clone(),
        background_color: a.background_color.clone(),
    }
}

/// The model accepts every partial linearization of the info, in order,
/// from its initial state, where the info lists operations for its
/// partition: what drawing the info needs.
pub open spec fn drawable<M: Model>(info: LinearizationInfo<M>) -> bool {
    forall|p: int, k: int|
        0 <= p < info.partition_ops@.len() && 0 <= p < info.partial_linearizations@.len() && 0 <= k
            < info.partial_linearizations@[p]@.len() ==> replayable(
            info.partition_ops@[p]@,
            #[trigger] info.partial_linearizations@[p]@[k]@,
        )
}

/// Every well-formed info can be drawn.
pub proof fn lemma_wf_drawable<M: Model>(info: LinearizationInfo<M>)
    requires
        info.wf(),
    ensures
        drawable(info),
{
    assert forall|p: int, k: int|
        0 <= p < info.partition_ops@.len() && 0 <= p < info.partial_linearizations@.len() && 0 <= k
            < info.partial_linearizations@[p]@.len() implies replayable(
        info.partition_ops@[p]@,
        #[trigger] info.partial_linearizations@[p]@[k]@,
    ) by {
        lemma_runs_accepted(
            info.partition_ops@[p]@,
            Set::empty(),
            M::init_spec(),
            as_order(info.partial_linearizations@[p]@[k]@),
        );
    }
}

/// Whether the info can be drawn.
pub fn is_drawable<M: Model>(info: &LinearizationInfo<M>) -> (r: bool)
    ensures
        r == drawable(*info),
{
    let n = if info.partition_ops.len() < info.partial_linearizations.len() {
        info.partition_ops.len()
    } else {
        info.partial_linearizations.len()
    };
    let mut p: usize = 0;
    while p < n
        invariant
            p <= n,
            n <= info.partition_ops@.len(),
            n <= info.partial_linearizations@.len(),
            n == info.partition_ops@.len() || n == info.partial_linearizations@.len(),
            forall|q: int, k: int|
                0 <= q < p && 0 <= k < info.partial_linearizations@[q]@.len() ==> replayable(
                    info.partition_ops@[q]@,
                    #[trigger] info.partial_linearizations@[q]@[k]@,
                ),
        decreases n - p,
    {
        let seqs = &info.partial_linearizations[p];
        let mut k: usize = 0;
        while k < seqs.len()
            invariant
                k <= seqs@.len(),
                p < n,
                n <= info.partition_ops@.len(),
                n <= info.partial_linearizations@.len(),
                *seqs == info.partial_linearizations@[p as int],
                forall|q: int, j: int|
                    0 <= q < p && 0 <= j < info.partial_linearizations@[q]@.len() ==> replayable(
                        info.partition_ops@[q]@,
                        #[trigger] info.partial_linearizations@[q]@[j]@,
                    ),
                forall|j: int|
                    0 <= j < k ==> replayable(
                        info.partition_ops@[p as int]@,
                        #[trigger] info.partial_linearizations@[p as int]@[j]@,
                    ),
            decreases seqs@.len() - k,
        {
            if !replays(&info.partition_ops[p], &seqs[k]) {
                return false;
            }
            k = k + 1;
        }
        p = p + 1;
    }
    true
}

/// The data that the visualization of `info` shows: for each partition its
/// operations, partial linearizations and first holders, and the
/// annotations, with every time stamp drawn at its rank among all time
/// stamps, times 100.  Partitions are paired with their partial
/// linearizations as far as both lists go.
pub fn compute_visualization_data<M: Model>(info: &LinearizationInfo<M>) -> (r: VisualizationData)
    requires
        drawable(*info),
        info_times(*info).len() * 100 <= i64::MAX,
    ensures
        r.partitions@.len() == if info.partition_ops@.len() < info.partial_linearizations@.len() {
            info.partition_ops@.len()
        } else {
            info.partial_linearizations@.len()
        },
        forall|p: int|
            0 <= p < r.partitions@.len() ==> partition_data_of(
                #[trigger] r.partitions@[p],
                info.partition_ops@[p]@,
                seqs_view(info.partial_linearizations@[p]@),
                info_times(*info),
            ),
        r.annotations@.len() == info.annotations@.len(),
        forall|a: int|
            0 <= a < r.annotations@.len() ==> annotation_element_of(
                #[trigger] r.annotations@[a],
                info.annotations@[a],
                info_times(*info),
            ),
{
    let ghost times = info_times(*info);
    let all = collect_times(info);
    let keys = sorted_distinct(&all);
    proof {
        assert forall|u: i64| keys@.contains(u) <==> times.contains(u) by {}
        assert(keys@.no_duplicates()) by {
            assert forall|a: int, b: int| 0 <= a < keys@.len() && 0 <= b < keys@.len() && a != b implies keys@[a]
                != keys@[b] by {
                if a < b {
                    assert(keys@[a] < keys@[b]);
                } else {
                    assert(keys@[b] < keys@[a]);
                }
            }
        }
        keys@.unique_seq_to_set();
        assert(keys@.to_set() =~= times);
    }
    let n = if info.partition_ops.len() < info.partial_linearizations.len() {
        info.partition_ops.len()
    } else {
        info.partial_linearizations.len()
    };
    let mut partitions: Vec<PartitionVisualizationData> = Vec::new();
    let mut p: usize = 0;
    while p < n
        invariant
            p <= n,
            n <= info.partition_ops@.len(),
            n <= info.partial_linearizations@.len(),
            drawable(*info),
            times == info_times(*info),
            increasing(keys@),
            forall|u: i64| keys@.contains(u) <==> times.contains(u),
            keys@.len() * 100 <= i64::MAX,
            partitions@.len() == p,
            forall|q: int|
                0 <= q < p ==> partition_data_of(
                    #[trigger] partitions@[q],
                    info.partition_ops@[q]@,
                    seqs_view(info.partial_linearizations@[q]@),
                    times,
                ),
        decreases n - p,
    {
        proof {
            assert forall|i: int| 0 <= i < info.partition_ops@[p as int]@.len() implies times.contains(
                #[trigger] info.partition_ops@[p as int]@[i].call_time,
            ) && times.contains(info.partition_ops@[p as int]@[i].return_time) by {
                lemma_info_op_times(*info, p as int, i);
            }
            assert(times_cover(info.partition_ops@[p as int]@, times));
        }
        let d = build_partition_data(
            &info.partition_ops[p],
            &info.partial_linearizations[p],
            &keys,
            Ghost(times),
        );
        partitions.push(d);
        p = p + 1;
    }
    let mut annotations: Vec<AnnotationElement> = Vec::new();
    let mut a: usize = 0;
    while a < info.annotations.len()
        invariant
            a <= info.annotations@.len(),
            times == info_times(*info),
            increasing(keys@),
            forall|u: i64| keys@.contains(u) <==> times.contains(u),
            keys@.len() * 100 <= i64::MAX,
            annotations@.len() == a,
            forall|b: int|
                0 <= b < a ==> annotation_element_of(#[trigger] annotations@[b], info.annotations@[b], times),
        decreases info.annotations@.len() - a,
    {
        proof {
            lemma_info_annotation_times(*info, a as int);
        }
        let e = build_annotation(&info.annotations[a], &keys, Ghost(times));
        annotations.push(e);
        a = a + 1;
    }
    VisualizationData { partitions, annotations }
}

} // verus!
