//! An index-based doubly-linked list over the entries `0..n`, with the
//! sentinel `n` as its head.  Removing an entry and putting it back are
//! both O(1), which is what the backtracking search needs.
use vstd::prelude::*;

verus! {

/// `act` is strictly increasing and every element is below `bound`.
pub open spec fn sorted_below(act: Seq<usize>, bound: usize) -> bool {
    &&& forall|a: int, b: int| 0 <= a < b < act.len() ==> act[a] < act[b]
    &&& forall|a: int| 0 <= a < act.len() ==> act[a] < bound
}

/// The element after position `k` of `act`, or `head` past the end.
pub open spec fn succ_of(act: Seq<usize>, k: int, head: usize) -> usize {
    if k + 1 < act.len() {
        act[k + 1]
    } else {
        head
    }
}

/// The element before position `k` of `act`, or `head` before the start.
pub open spec fn pred_of(act: Seq<usize>, k: int, head: usize) -> usize {
    if k > 0 {
        act[k - 1]
    } else {
        head
    }
}

/// The arrays `next` and `prev` link, in order, exactly the entries of `act`
/// in a ring through `head`.
pub open spec fn links(next: Seq<usize>, prev: Seq<usize>, head: usize, act: Seq<usize>) -> bool {
    &&& next.len() == head + 1
    &&& prev.len() == head + 1
    &&& sorted_below(act, head)
    &&& next[head as int] == (if act.len() > 0 {
        act[0]
    } else {
        head
    })
    &&& forall|k: int| 0 <= k < act.len() ==> #[trigger] next[act[k] as int] == succ_of(act, k, head)
    &&& forall|k: int| 0 <= k < act.len() ==> #[trigger] prev[act[k] as int] == pred_of(act, k, head)
}

/// The arrays after unlinking entry `i`.
pub open spec fn remove_links(next: Seq<usize>, prev: Seq<usize>, i: int) -> (Seq<usize>, Seq<usize>) {
    let p = prev[i];
    let nx = next[i];
    (next.update(p as int, nx), prev.update(nx as int, p))
}

/// The arrays after linking entry `i` back between the neighbours it
/// remembers.
pub open spec fn restore_links(next: Seq<usize>, prev: Seq<usize>, i: int) -> (
    Seq<usize>,
    Seq<usize>,
) {
    let p = prev[i];
    let nx = next[i];
    (next.update(p as int, i as usize), prev.update(nx as int, i as usize))
}


/// Unlinking the entry at position `k` of the linked entries leaves exactly
/// the other entries linked, and leaves the unlinked entry's own links alone.
pub proof fn lemma_remove_unlinks(
    next: Seq<usize>,
    prev: Seq<usize>,
    head: usize,
    act: Seq<usize>,
    k: int,
)
    requires
        links(next, prev, head, act),
        0 <= k < act.len(),
    ensures
        ({
            let (n2, p2) = remove_links(next, prev, act[k] as int);
            &&& links(n2, p2, head, act.remove(k))
            &&& n2[act[k] as int] == next[act[k] as int]
            &&& p2[act[k] as int] == prev[act[k] as int]
        }),
{
    let i = act[k];
    let (n2, p2) = remove_links(next, prev, i as int);
    let a2 = act.remove(k);
    let p = prev[i as int];
    let nx = next[i as int];
    assert(p == pred_of(act, k, head));
    assert(nx == succ_of(act, k, head));
    assert(sorted_below(a2, head));
    assert forall|j: int| 0 <= j < a2.len() implies #[trigger] n2[a2[j] as int] == succ_of(a2, j, head) by {
        if j < k {
            assert(a2[j] == act[j]);
            if j == k - 1 {
                assert(a2[j] == p);
            } else {
                assert(a2[j] < p);
            }
        } else {
            assert(a2[j] == act[j + 1]);
            assert(act[k] < act[j + 1]);
        }
    }
    assert forall|j: int| 0 <= j < a2.len() implies #[trigger] p2[a2[j] as int] == pred_of(a2, j, head) by {
        if j < k {
            assert(a2[j] == act[j]);
            assert(act[j] < act[k]);
        } else {
            assert(a2[j] == act[j + 1]);
            if j == k {
                assert(a2[j] == nx);
            } else {
                assert(act[k + 1] < act[j + 1]);
            }
        }
    }
    if a2.len() > 0 {
        if k == 0 {
            assert(a2[0] == act[1]);
        } else {
            assert(a2[0] == act[0]);
            assert(act[0] < act[k]);
        }
    }
}

/// Linking entry `i` back, when its remembered neighbours are the linked
/// entries on either side of the position `k` where it belongs, links the
/// entries with `i` inserted at `k`.
pub proof fn lemma_restore_relinks(
    next: Seq<usize>,
    prev: Seq<usize>,
    head: usize,
    act: Seq<usize>,
    k: int,
    i: usize,
)
    requires
        links(next, prev, head, act),
        0 <= k <= act.len(),
        i < head,
        k == 0 || act[k - 1] < i,
        k == act.len() || i < act[k],
        next[i as int] == (if k < act.len() {
            act[k]
        } else {
            head
        }),
        prev[i as int] == (if k > 0 {
            act[k - 1]
        } else {
            head
        }),
    ensures
        ({
            let (n2, p2) = restore_links(next, prev, i as int);
            links(n2, p2, head, act.insert(k, i))
        }),
{
    let (n2, p2) = restore_links(next, prev, i as int);
    let a2 = act.insert(k, i);
    let p = prev[i as int];
    let nx = next[i as int];
    assert forall|a: int, b: int| 0 <= a < b < a2.len() implies a2[a] < a2[b] by {
        if a < k && b > k {
            assert(act[a] <= act[k - 1]);
        } else if a == k && b > k {
            assert(act[k] <= act[b - 1]);
        }
    }
    assert(sorted_below(a2, head));
    assert forall|j: int| 0 <= j < a2.len() implies #[trigger] n2[a2[j] as int] == succ_of(a2, j, head) by {
        if j < k {
            assert(a2[j] == act[j]);
            assert(act[j] != i);
            if j == k - 1 {
                assert(a2[j] == p);
            } else {
                assert(act[j] < act[k - 1]);
            }
        } else if j == k {
            assert(a2[j] == i);
        } else {
            assert(a2[j] == act[j - 1]);
            assert(act[j - 1] > i);
            if k > 0 {
                assert(act[k - 1] < act[j - 1]);
            }
        }
    }
    assert forall|j: int| 0 <= j < a2.len() implies #[trigger] p2[a2[j] as int] == pred_of(a2, j, head) by {
        if j < k {
            assert(a2[j] == act[j]);
            assert(act[j] < i);
        } else if j == k {
            assert(a2[j] == i);
        } else {
            assert(a2[j] == act[j - 1]);
            if j == k + 1 {
                assert(a2[j] == nx);
            } else {
                assert(act[k] < act[j - 1]);
            }
        }
    }
    if k == 0 {
        assert(a2[0] == i);
    } else {
        assert(a2[0] == act[0]);
        assert(act[0] <= act[k - 1]);
    }
}

/// Putting back the entry that was just removed gives back the same links:
/// the `next` array is restored exactly, and the `prev` array everywhere but
/// at the sentinel, which no link reads.
pub proof fn lemma_restore_undoes_remove(
    next: Seq<usize>,
    prev: Seq<usize>,
    head: usize,
    act: Seq<usize>,
    k: int,
)
    requires
        links(next, prev, head, act),
        0 <= k < act.len(),
    ensures
        ({
            let (n2, p2) = remove_links(next, prev, act[k] as int);
            let (n3, p3) = restore_links(n2, p2, act[k] as int);
            &&& links(n3, p3, head, act)
            &&& n3 == next
            &&& forall|j: int| 0 <= j < prev.len() && j != head ==> p3[j] == prev[j]
        }),
{
    let i = act[k];
    let (n2, p2) = remove_links(next, prev, i as int);
    lemma_remove_unlinks(next, prev, head, act, k);
    let a2 = act.remove(k);
    if k > 0 {
        assert(a2[k - 1] == act[k - 1]);
    }
    if k < a2.len() {
        assert(a2[k] == act[k + 1]);
    }
    lemma_restore_relinks(n2, p2, head, a2, k, i);
    assert(a2.insert(k, i) =~= act);
    let (n3, p3) = restore_links(n2, p2, i as int);
    assert(n3 =~= next);
    assert(forall|j: int| 0 <= j < prev.len() && j != head ==> p3[j] == prev[j]);
}

/// The arrays after unlinking the entries of `es`, one after the other.
pub open spec fn remove_each(next: Seq<usize>, prev: Seq<usize>, es: Seq<usize>) -> (Seq<usize>, Seq<usize>)
    decreases es.len(),
{
    if es.len() == 0 {
        (next, prev)
    } else {
        let (n1, p1) = remove_links(next, prev, es[0] as int);
        remove_each(n1, p1, es.drop_first())
    }
}

/// The arrays after linking back the entries of `es` in reverse order: the
/// last one first.
pub open spec fn restore_each_reversed(next: Seq<usize>, prev: Seq<usize>, es: Seq<usize>) -> (
    Seq<usize>,
    Seq<usize>,
)
    decreases es.len(),
{
    if es.len() == 0 {
        (next, prev)
    } else {
        let (n1, p1) = restore_each_reversed(next, prev, es.drop_first());
        restore_links(n1, p1, es[0] as int)
    }
}

/// The links read no `prev` entry but those of linked entries.
proof fn lemma_links_prev_at_head(next: Seq<usize>, prev: Seq<usize>, prev2: Seq<usize>, head: usize, act: Seq<usize>)
    requires
        links(next, prev, head, act),
        prev2.len() == prev.len(),
        forall|j: int| 0 <= j < prev.len() && j != head ==> prev2[j] == prev[j],
    ensures
        links(next, prev2, head, act),
{
    assert forall|k: int| 0 <= k < act.len() implies #[trigger] prev2[act[k] as int] == pred_of(act, k, head) by {
        assert(act[k] < head);
    }
}

/// Unlinking any number of distinct linked entries, one after the other,
/// and linking them back in reverse order gives back the same links: the
/// `next` array exactly, and the `prev` array everywhere but at the
/// sentinel, which no link reads.
pub proof fn lemma_restore_reversed_undoes_removes(
    next: Seq<usize>,
    prev: Seq<usize>,
    head: usize,
    act: Seq<usize>,
    es: Seq<usize>,
)
    requires
        links(next, prev, head, act),
        es.no_duplicates(),
        forall|i: int| 0 <= i < es.len() ==> act.contains(#[trigger] es[i]),
    ensures
        ({
            let (n2, p2) = remove_each(next, prev, es);
            let (n3, p3) = restore_each_reversed(n2, p2, es);
            &&& links(n3, p3, head, act)
            &&& n3 == next
            &&& p3.len() == prev.len()
            &&& forall|j: int| 0 <= j < prev.len() && j != head ==> p3[j] == prev[j]
        }),
    decreases es.len(),
{
    if es.len() > 0 {
        let e = es[0];
        assert(act.contains(es[0]));
        let k0 = choose|k: int| 0 <= k < act.len() && act[k] == e;
        let (n1, p1) = remove_links(next, prev, e as int);
        lemma_remove_unlinks(next, prev, head, act, k0);
        let act1 = act.remove(k0);
        let rest = es.drop_first();
        assert forall|i: int| 0 <= i < rest.len() implies act1.contains(#[trigger] rest[i]) by {
            assert(rest[i] == es[i + 1]);
            assert(act.contains(es[i + 1]));
            let k = choose|k: int| 0 <= k < act.len() && act[k] == es[i + 1];
            assert(k != k0);
            if k < k0 {
                assert(act1[k] == act[k]);
            } else {
                assert(act1[k - 1] == act[k]);
            }
        }
        assert(rest.no_duplicates());
        lemma_restore_reversed_undoes_removes(n1, p1, head, act1, rest);
        let (n2, p2) = remove_each(n1, p1, rest);
        let (nm, pm) = restore_each_reversed(n2, p2, rest);
        assert(remove_each(next, prev, es) == (n2, p2));
        assert(restore_each_reversed(n2, p2, es) == restore_links(nm, pm, e as int));
        // The removed entry still remembers its neighbours.
        assert(nm[e as int] == next[e as int]);
        assert(pm[e as int] == prev[e as int]);
        if k0 > 0 {
            assert(act1[k0 - 1] == act[k0 - 1]);
        }
        if k0 < act1.len() {
            assert(act1[k0] == act[k0 + 1]);
        }
        lemma_links_prev_at_head(nm, p1, pm, head, act1);
        lemma_restore_relinks(nm, pm, head, act1, k0, e);
        assert(act1.insert(k0, e) =~= act);
        let (n3, p3) = restore_links(nm, pm, e as int);
        let p = prev[e as int];
        let nx = next[e as int];
        assert(next[p as int] == e) by {
            if k0 > 0 {
                assert(p == act[k0 - 1]);
            }
        }
        assert(n3 =~= next);
        assert forall|j: int| 0 <= j < prev.len() && j != head implies p3[j] == prev[j] by {
            if j == nx {
                assert(nx != head ==> prev[nx as int] == e) by {
                    if nx != head {
                        assert(nx == act[k0 + 1]);
                    }
                }
            }
        }
    }
}

/// Unlinking a linked entry writes only the links of linked entries or of
/// the sentinel: every other entry keeps its links.
pub proof fn lemma_remove_frame(
    next: Seq<usize>,
    prev: Seq<usize>,
    head: usize,
    act: Seq<usize>,
    k: int,
    j: int,
)
    requires
        links(next, prev, head, act),
        0 <= k < act.len(),
        0 <= j < head,
        !act.contains(j as usize),
    ensures
        ({
            let (n2, p2) = remove_links(next, prev, act[k] as int);
            n2[j] == next[j] && p2[j] == prev[j]
        }),
{
    let i = act[k];
    let p = prev[i as int];
    let nx = next[i as int];
    assert(p == pred_of(act, k, head));
    assert(nx == succ_of(act, k, head));
    if k > 0 {
        assert(act.contains(act[k - 1]));
    }
    if k + 1 < act.len() {
        assert(act.contains(act[k + 1]));
    }
}

/// Linking an entry back between two neighbours that are linked (or the
/// sentinel) writes only their links: every other entry keeps its links.
pub proof fn lemma_restore_frame(
    next: Seq<usize>,
    prev: Seq<usize>,
    head: usize,
    act: Seq<usize>,
    k: int,
    i: usize,
    j: int,
)
    requires
        links(next, prev, head, act),
        0 <= k <= act.len(),
        i < head,
        next[i as int] == (if k < act.len() {
            act[k]
        } else {
            head
        }),
        prev[i as int] == (if k > 0 {
            act[k - 1]
        } else {
            head
        }),
        0 <= j < head,
        !act.contains(j as usize),
    ensures
        ({
            let (n2, p2) = restore_links(next, prev, i as int);
            n2[j] == next[j] && p2[j] == prev[j]
        }),
{
    if k > 0 {
        assert(act.contains(act[k - 1]));
    }
    if k < act.len() {
        assert(act.contains(act[k]));
    }
}

/// Removing position `k` from a sorted sequence removes exactly its element.
pub proof fn lemma_remove_contains(act: Seq<usize>, bound: usize, k: int, p: usize)
    requires
        sorted_below(act, bound),
        0 <= k < act.len(),
    ensures
        act.remove(k).contains(p) <==> (act.contains(p) && p != act[k]),
        sorted_below(act.remove(k), bound),
{
    let r = act.remove(k);
    if r.contains(p) {
        let j = choose|j: int| 0 <= j < r.len() && r[j] == p;
        if j < k {
            assert(act[j] == p);
        } else {
            assert(act[j + 1] == p);
        }
    }
    if act.contains(p) && p != act[k] {
        let j = choose|j: int| 0 <= j < act.len() && act[j] == p;
        if j < k {
            assert(r[j] == p);
        } else {
            assert(j != k);
            assert(r[j - 1] == p);
        }
    }
    assert forall|a: int, b: int| 0 <= a < b < r.len() implies r[a] < r[b] by {
        let a1 = if a < k { a } else { a + 1 };
        let b1 = if b < k { b } else { b + 1 };
        assert(r[a] == act[a1] && r[b] == act[b1]);
    }
}

/// Unlinking the entry at position `a`, then the one at position `b` of
/// what remains, links the rest; both unlinked entries keep the links to
/// the neighbours they had, and entries that were not linked keep theirs.
pub proof fn lemma_remove_pair(
    next: Seq<usize>,
    prev: Seq<usize>,
    head: usize,
    act: Seq<usize>,
    a: int,
    b: int,
)
    requires
        links(next, prev, head, act),
        0 <= a < act.len(),
        0 <= b < act.remove(a).len(),
    ensures
        ({
            let mid = act.remove(a);
            let (n1, p1) = remove_links(next, prev, act[a] as int);
            let (n2, p2) = remove_links(n1, p1, mid[b] as int);
            &&& links(n2, p2, head, mid.remove(b))
            &&& n2[act[a] as int] == succ_of(act, a, head)
            &&& p2[act[a] as int] == pred_of(act, a, head)
            &&& n2[mid[b] as int] == succ_of(mid, b, head)
            &&& p2[mid[b] as int] == pred_of(mid, b, head)
            &&& forall|j: int|
                0 <= j < head && !act.contains(j as usize) ==> #[trigger] n2[j] == next[j] && p2[j]
                    == prev[j]
        }),
{
    let mid = act.remove(a);
    let c = act[a];
    let (n1, p1) = remove_links(next, prev, c as int);
    lemma_remove_unlinks(next, prev, head, act, a);
    lemma_remove_unlinks(n1, p1, head, mid, b);
    lemma_remove_contains(act, head, a, c);
    lemma_remove_frame(n1, p1, head, mid, b, c as int);
    let (n2, p2) = remove_links(n1, p1, mid[b] as int);
    assert forall|j: int| 0 <= j < head && !act.contains(j as usize) implies #[trigger] n2[j]
        == next[j] && p2[j] == prev[j] by {
        lemma_remove_frame(next, prev, head, act, a, j);
        lemma_remove_contains(act, head, a, j as usize);
        lemma_remove_frame(n1, p1, head, mid, b, j);
    }
}

/// Linking back the two entries that `lemma_remove_pair` unlinked, in the
/// reverse order, gives back the links they had, and entries that are not
/// linked keep their links.
#[verifier::rlimit(40)]
pub proof fn lemma_restore_pair(
    next: Seq<usize>,
    prev: Seq<usize>,
    head: usize,
    act: Seq<usize>,
    a: int,
    b: int,
)
    requires
        sorted_below(act, head),
        0 <= a < act.len(),
        0 <= b < act.remove(a).len(),
        links(next, prev, head, act.remove(a).remove(b)),
        next[act[a] as int] == succ_of(act, a, head),
        prev[act[a] as int] == pred_of(act, a, head),
        next[act.remove(a)[b] as int] == succ_of(act.remove(a), b, head),
        prev[act.remove(a)[b] as int] == pred_of(act.remove(a), b, head),
    ensures
        ({
            let mid = act.remove(a);
            let (n1, p1) = restore_links(next, prev, mid[b] as int);
            let (n2, p2) = restore_links(n1, p1, act[a] as int);
            &&& links(n2, p2, head, act)
            &&& forall|j: int|
                0 <= j < head && !act.contains(j as usize) ==> #[trigger] n2[j] == next[j] && p2[j]
                    == prev[j]
        }),
{
    let mid = act.remove(a);
    let actd = mid.remove(b);
    let c = act[a];
    let r = mid[b];
    lemma_remove_contains(act, head, a, c);
    lemma_remove_contains(mid, head, b, r);
    if b > 0 {
        assert(actd[b - 1] == mid[b - 1]);
    }
    if b < actd.len() {
        assert(actd[b] == mid[b + 1]);
    }
    lemma_restore_relinks(next, prev, head, actd, b, r);
    assert(actd.insert(b, r) =~= mid);
    let (n1, p1) = restore_links(next, prev, r as int);
    assert(!actd.contains(c)) by {
        lemma_remove_contains(mid, head, b, c);
    }
    lemma_restore_frame(next, prev, head, actd, b, r, c as int);
    if a > 0 {
        assert(mid[a - 1] == act[a - 1]);
    }
    if a < mid.len() {
        assert(mid[a] == act[a + 1]);
    }
    lemma_restore_relinks(n1, p1, head, mid, a, c);
    assert(mid.insert(a, c) =~= act);
    let (n2, p2) = restore_links(n1, p1, c as int);
    assert forall|j: int| 0 <= j < head && !act.contains(j as usize) implies #[trigger] n2[j]
        == next[j] && p2[j] == prev[j] by {
        lemma_remove_contains(act, head, a, j as usize);
        lemma_remove_contains(mid, head, b, j as usize);
        lemma_restore_frame(next, prev, head, actd, b, r, j);
        lemma_restore_frame(n1, p1, head, mid, a, c, j);
    }
}

pub struct SkipList {
    next: Vec<usize>,
    prev: Vec<usize>,
    pub head: usize,
}

impl SkipList {
    pub closed spec fn next_seq(&self) -> Seq<usize> {
        self.next@
    }

    pub closed spec fn prev_seq(&self) -> Seq<usize> {
        self.prev@
    }

    /// The sentinel entry, one past the last real entry.
    pub closed spec fn head_index(&self) -> usize {
        self.head
    }

    /// Both arrays have `head + 1` entries and every link stays within them.
    pub open spec fn bounded(&self) -> bool {
        &&& self.next_seq().len() == self.head_index() + 1
        &&& self.prev_seq().len() == self.head_index() + 1
        &&& forall|k: int| 0 <= k <= self.head_index() ==> #[trigger] self.next_seq()[k] <= self.head_index()
        &&& forall|k: int| 0 <= k <= self.head_index() ==> #[trigger] self.prev_seq()[k] <= self.head_index()
    }

    /// The list links exactly the entries of `act`, in order.
    pub open spec fn links_exactly(&self, act: Seq<usize>) -> bool {
        links(self.next_seq(), self.prev_seq(), self.head_index(), act)
    }

    /// A list of `n` entries, all active, in order.
    pub fn new(n: usize) -> (r: Self)
        requires
            n < usize::MAX,
        ensures
            r.head_index() == n,
            r.bounded(),
            r.links_exactly(Seq::new(n as nat, |k: int| k as usize)),
    {
        let mut next: Vec<usize> = vec![0usize; n + 1];
        let mut prev: Vec<usize> = vec![0usize; n + 1];
        let mut i: usize = 0;
        while i < n
            invariant
                i <= n,
                next@.len() == n + 1,
                prev@.len() == n + 1,
                forall|k: int| 0 <= k < i ==> #[trigger] next@[k] == (k + 1) as usize,
                forall|k: int| 0 <= k < i ==> #[trigger] prev@[k] == (if k == 0 {
                    n
                } else {
                    (k - 1) as usize
                }),
                forall|k: int| 0 <= k <= n ==> #[trigger] next@[k] <= n,
                forall|k: int| 0 <= k <= n ==> #[trigger] prev@[k] <= n,
            decreases n - i,
        {
            next.set(i, i + 1);
            let p = if i == 0 {
                n
            } else {
                i - 1
            };
            prev.set(i, p);
            i = i + 1;
        }
        let last = if n == 0 {
            n
        } else {
            0
        };
        next.set(n, last);
        let r = Self { next, prev, head: n };
        proof {
            let act = Seq::new(n as nat, |k: int| k as usize);
            assert forall|k: int| 0 <= k < act.len() implies #[trigger] r.next_seq()[act[k] as int]
                == succ_of(act, k, n) by {}
            assert forall|k: int| 0 <= k < act.len() implies #[trigger] r.prev_seq()[act[k] as int]
                == pred_of(act, k, n) by {}
        }
        r
    }

    /// The first active entry, or `head` when none is active.
    #[inline]
    pub fn front(&self) -> (r: usize)
        requires
            self.bounded(),
        ensures
            r == self.next_seq()[self.head_index() as int],
    {
        self.next[self.head]
    }

    /// The active entry immediately after `i`.
    #[inline]
    pub fn next_of(&self, i: usize) -> (r: usize)
        requires
            self.bounded(),
            i <= self.head_index(),
        ensures
            r == self.next_seq()[i as int],
    {
        self.next[i]
    }

    /// Unlink entry `i` from its neighbours.
    pub fn remove(&mut self, i: usize)
        requires
            old(self).bounded(),
            i <= old(self).head_index(),
        ensures
            final(self).head_index() == old(self).head_index(),
            final(self).bounded(),
            (final(self).next_seq(), final(self).prev_seq()) == remove_links(
                old(self).next_seq(),
                old(self).prev_seq(),
                i as int,
            ),
    {
        let p = self.prev[i];
        let nx = self.next[i];
        self.next.set(p, nx);
        self.prev.set(nx, p);
    }

    /// Link entry `i` back between the neighbours it remembers.
    pub fn restore(&mut self, i: usize)
        requires
            old(self).bounded(),
            i <= old(self).head_index(),
        ensures
            final(self).head_index() == old(self).head_index(),
            final(self).bounded(),
            (final(self).next_seq(), final(self).prev_seq()) == restore_links(
                old(self).next_seq(),
                old(self).prev_seq(),
                i as int,
            ),
    {
        let p = self.prev[i];
        let nx = self.next[i];
        self.next.set(p, i);
        self.prev.set(nx, i);
    }
}

} // verus!
