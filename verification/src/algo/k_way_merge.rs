//! K-way merge of sorted runs with a binary min-heap of the runs' heads.

use crate::order::sorted;
use crate::radixable::Radixable;
use crate::sorts::comparative_sort::lemma_swap_multiset;
use crate::sorts::utils::copy_nonoverlapping;
use vstd::multiset::Multiset;
use vstd::prelude::*;
use vstd::seq_lib::{
    lemma_multiset_commutative, to_multiset_build, to_multiset_contains, to_multiset_len,
};

verus! {

/// An entry of the heap: the key of a run's head, and the run's index.
pub type Entry = (u128, usize);

/// The runs lie one after the other and cover `n` positions.
pub open spec fn covers(runs: Seq<(usize, usize)>, n: int) -> bool {
    &&& runs.len() == 0 ==> n == 0
    &&& runs.len() > 0 ==> runs[0].0 == 0 && runs[runs.len() - 1].1 == n
    &&& forall|r: int| 0 <= r < runs.len() ==> (#[trigger] runs[r]).0 <= runs[r].1
    &&& forall|r: int|
        #![trigger runs[r], runs[r + 1]]
        0 <= r < runs.len() - 1 ==> runs[r].1 == runs[r + 1].0
}

/// Each run of `s` is sorted.
pub open spec fn runs_sorted<T: Radixable>(s: Seq<T>, runs: Seq<(usize, usize)>) -> bool {
    forall|r: int|
        0 <= r < runs.len() ==> sorted(s.subrange((#[trigger] runs[r]).0 as int, runs[r].1 as int))
}

/// The order of the heap: by key, the run's index breaking ties.
pub open spec fn entry_le(a: Entry, b: Entry) -> bool {
    a.0 < b.0 || (a.0 == b.0 && a.1 <= b.1)
}

/// Every entry is no smaller than its parent.
#[verifier::opaque]
pub open spec fn is_heap(h: Seq<Entry>) -> bool {
    forall|i: int| 0 < i < h.len() ==> entry_le(h[(i - 1) / 2], #[trigger] h[i])
}

/// The root of a heap is its smallest entry.
pub proof fn lemma_heap_root(h: Seq<Entry>, i: int)
    requires
        is_heap(h),
        0 <= i < h.len(),
    ensures
        entry_le(h[0], h[i]),
    decreases i,
{
    reveal(is_heap);
    if i > 0 {
        lemma_heap_root(h, (i - 1) / 2);
        assert(entry_le(h[(i - 1) / 2], h[i]));
    }
}

/// Whether `a` comes strictly before `b` in the order of the heap.
fn entry_lt(a: Entry, b: Entry) -> (r: bool)
    ensures
        r == !entry_le(b, a),
{
    a.0 < b.0 || (a.0 == b.0 && a.1 < b.1)
}

/// A heap but for its root, which may be larger than its children.
#[verifier::opaque]
pub open spec fn almost_heap(h: Seq<Entry>) -> bool {
    forall|i: int| 0 < i < h.len() && (i - 1) / 2 != 0 ==> entry_le(h[(i - 1) / 2], #[trigger] h[i])
}

/// Replacing the root of a heap, or moving its last entry there, leaves a
/// heap but for its root.
proof fn lemma_root_replaced(before: Seq<Entry>, after: Seq<Entry>)
    requires
        is_heap(before),
        after.len() <= before.len(),
        forall|i: int| 0 < i < after.len() ==> after[i] == before[i],
    ensures
        almost_heap(after),
{
    reveal(is_heap);
    reveal(almost_heap);
    assert forall|i: int| 0 < i < after.len() && (i - 1) / 2 != 0 implies entry_le(
        after[(i - 1) / 2],
        #[trigger] after[i],
    ) by {
        assert(entry_le(before[(i - 1) / 2], before[i]));
    }
}

/// Restores the heap after its root was replaced.
fn sift_down(heap: &mut Vec<Entry>)
    requires
        almost_heap(old(heap)@),
    ensures
        is_heap(final(heap)@),
        final(heap)@.len() == old(heap)@.len(),
        final(heap)@.to_multiset() == old(heap)@.to_multiset(),
{
    let n: usize = heap.len();
    let mut cur: usize = 0;
    proof {
        reveal(almost_heap);
        reveal(is_heap);
    }
    loop
        invariant
            n == heap@.len(),
            heap@.to_multiset() == old(heap)@.to_multiset(),
            forall|i: int|
                0 < i < n && (i - 1) / 2 != cur ==> entry_le(
                    heap@[(i - 1) / 2],
                    #[trigger] heap@[i],
                ),
            cur > 0 ==> forall|c: int|
                0 < c < n && (c - 1) / 2 == cur ==> entry_le(
                    heap@[(cur - 1) / 2],
                    #[trigger] heap@[c],
                ),
        ensures
            is_heap(heap@),
            n == heap@.len(),
            heap@.to_multiset() == old(heap)@.to_multiset(),
        decreases n - cur,
    {
        proof {
            reveal(is_heap);
        }
        if cur >= n / 2 {
            proof {
                assert forall|i: int| 0 < i < n implies entry_le(
                    heap@[(i - 1) / 2],
                    #[trigger] heap@[i],
                ) by {
                    assert((i - 1) / 2 != cur);
                }
            }
            break ;
        }
        let left: usize = 2 * cur + 1;
        let right: usize = left + 1;
        let mut smallest: usize = cur;
        if entry_lt(heap[left], heap[smallest]) {
            smallest = left;
        }
        if right < n && entry_lt(heap[right], heap[smallest]) {
            smallest = right;
        }
        if smallest == cur {
            proof {
                assert forall|i: int| 0 < i < n implies entry_le(
                    heap@[(i - 1) / 2],
                    #[trigger] heap@[i],
                ) by {
                    if (i - 1) / 2 == cur {
                        assert(i == left || i == right);
                    }
                }
            }
            break ;
        }
        let ghost before = heap@;
        let a: Entry = heap[cur];
        let b: Entry = heap[smallest];
        proof {
            lemma_swap_multiset(before, cur as int, smallest as int);
        }
        heap[cur] = b;
        heap[smallest] = a;
        proof {
            assert(heap@ =~= before.update(cur as int, before[smallest as int]).update(
                smallest as int,
                before[cur as int],
            ));
            assert forall|i: int| 0 < i < n && (i - 1) / 2 != smallest implies entry_le(
                heap@[(i - 1) / 2],
                #[trigger] heap@[i],
            ) by {
                if i == smallest {
                } else if (i - 1) / 2 == cur {
                    assert(i == left || i == right);
                } else if i == cur {
                    assert(entry_le(before[(cur - 1) / 2], before[smallest as int]));
                } else {
                    assert(entry_le(before[(i - 1) / 2], before[i]));
                }
            }
            assert forall|c: int| 0 < c < n && (c - 1) / 2 == smallest implies entry_le(
                heap@[(smallest - 1) / 2],
                #[trigger] heap@[c],
            ) by {
                assert(entry_le(before[(c - 1) / 2], before[c]));
            }
        }
        cur = smallest;
    }
}

/// What the runs still hold from their cursors on, over the first `m` runs.
pub open spec fn remaining<T>(
    s: Seq<T>,
    runs: Seq<(usize, usize)>,
    cursors: Seq<usize>,
    m: int,
) -> Multiset<T>
    decreases m,
{
    if m <= 0 {
        Multiset::empty()
    } else {
        remaining(s, runs, cursors, m - 1).add(
            s.subrange(cursors[m - 1] as int, runs[m - 1].1 as int).to_multiset(),
        )
    }
}

/// The cursors stand within their runs.
pub open spec fn cursors_ok(runs: Seq<(usize, usize)>, cursors: Seq<usize>) -> bool {
    &&& cursors.len() == runs.len()
    &&& forall|r: int| 0 <= r < runs.len() ==> runs[r].0 <= #[trigger] cursors[r] <= runs[r].1
}

/// At the start the runs hold the whole slice.
proof fn lemma_remaining_start<T>(s: Seq<T>, runs: Seq<(usize, usize)>, cursors: Seq<usize>, m: int)
    requires
        covers(runs, s.len() as int),
        cursors.len() == runs.len(),
        forall|r: int| 0 <= r < runs.len() ==> #[trigger] cursors[r] == runs[r].0,
        0 < m <= runs.len(),
    ensures
        runs[m - 1].1 <= s.len(),
        remaining(s, runs, cursors, m) == s.subrange(0, runs[m - 1].1 as int).to_multiset(),
    decreases m,
{
    broadcast use vstd::multiset::group_multiset_axioms;

    lemma_run_bounds(runs, s.len() as int, m - 1);
    let last = s.subrange(runs[m - 1].0 as int, runs[m - 1].1 as int);
    if m == 1 {
        assert(remaining(s, runs, cursors, 0) =~= Multiset::<T>::empty());
        assert(remaining(s, runs, cursors, 1) =~= last.to_multiset());
    } else {
        lemma_remaining_start(s, runs, cursors, m - 1);
        lemma_covers_chain(runs, s.len() as int, m - 2);
        let front = s.subrange(0, runs[m - 2].1 as int);
        assert(s.subrange(0, runs[m - 1].1 as int) =~= front + last);
        lemma_multiset_commutative(front, last);
    }
}

/// A run ends where the next one starts.
pub proof fn lemma_covers_chain(runs: Seq<(usize, usize)>, n: int, r: int)
    requires
        covers(runs, n),
        0 <= r < runs.len() - 1,
    ensures
        runs[r].1 == runs[r + 1].0,
{
}

/// Every run lies within the slice, the runs in ascending order.
pub proof fn lemma_run_bounds(runs: Seq<(usize, usize)>, n: int, r: int)
    requires
        covers(runs, n),
        0 <= r < runs.len(),
    ensures
        0 <= runs[r].0 <= runs[r].1 <= n,
    decreases runs.len() - r,
{
    if r < runs.len() - 1 {
        lemma_run_bounds(runs, n, r + 1);
        lemma_covers_chain(runs, n, r);
    }
}

/// Taking the head of run `r` takes one element out of what remains.
proof fn lemma_remaining_step<T>(
    s: Seq<T>,
    runs: Seq<(usize, usize)>,
    cursors: Seq<usize>,
    m: int,
    r: int,
)
    requires
        cursors.len() == runs.len(),
        0 <= m <= runs.len(),
        0 <= r < runs.len(),
        cursors[r] < runs[r].1 <= s.len(),
    ensures
        r < m ==> remaining(s, runs, cursors, m).count(s[cursors[r] as int]) > 0 && remaining(
            s,
            runs,
            cursors.update(r, (cursors[r] + 1) as usize),
            m,
        ) == remaining(s, runs, cursors, m).remove(s[cursors[r] as int]),
        r >= m ==> remaining(s, runs, cursors.update(r, (cursors[r] + 1) as usize), m)
            == remaining(s, runs, cursors, m),
    decreases m,
{
    broadcast use vstd::multiset::group_multiset_axioms;

    let next = cursors.update(r, (cursors[r] + 1) as usize);
    let x = s[cursors[r] as int];
    if m > 0 {
        lemma_remaining_step(s, runs, cursors, m - 1, r);
        if r == m - 1 {
            let whole = s.subrange(cursors[r] as int, runs[r].1 as int);
            let tail = s.subrange(cursors[r] + 1, runs[r].1 as int);
            assert(whole =~= seq![x] + tail);
            lemma_multiset_commutative(seq![x], tail);
            assert(seq![x] =~= Seq::<T>::empty().push(x));
            to_multiset_build(Seq::<T>::empty(), x);
            assert(seq![x].to_multiset() =~= Multiset::<T>::empty().insert(x)) by {
                to_multiset_len(Seq::<T>::empty());
                vstd::multiset::lemma_multiset_empty_len(Seq::<T>::empty().to_multiset());
            }
            assert(remaining(s, runs, next, m) =~= remaining(s, runs, cursors, m).remove(x));
        } else if r < m - 1 {
            assert(remaining(s, runs, next, m) =~= remaining(s, runs, cursors, m).remove(x));
        } else {
            assert(remaining(s, runs, next, m) =~= remaining(s, runs, cursors, m));
        }
    } else {
        assert(remaining(s, runs, next, m) =~= remaining(s, runs, cursors, m));
    }
}

/// Once every cursor stands at the end of its run, nothing remains.
proof fn lemma_remaining_end<T>(s: Seq<T>, runs: Seq<(usize, usize)>, cursors: Seq<usize>, m: int)
    requires
        covers(runs, s.len() as int),
        cursors.len() == runs.len(),
        0 <= m <= runs.len(),
        forall|r: int| 0 <= r < runs.len() ==> #[trigger] cursors[r] == runs[r].1,
    ensures
        remaining(s, runs, cursors, m) == Multiset::<T>::empty(),
    decreases m,
{
    broadcast use vstd::multiset::group_multiset_axioms;

    if m > 0 {
        lemma_remaining_end(s, runs, cursors, m - 1);
        lemma_run_bounds(runs, s.len() as int, m - 1);
        let last = s.subrange(cursors[m - 1] as int, runs[m - 1].1 as int);
        to_multiset_len(last);
        vstd::multiset::lemma_multiset_empty_len(last.to_multiset());
        assert(remaining(s, runs, cursors, m) =~= Multiset::<T>::empty());
    }
}

/// The entry of a run whose cursor has not reached its end.
pub open spec fn head_entry<T: Radixable>(s: Seq<T>, cursors: Seq<usize>, r: int) -> Entry {
    (s[cursors[r] as int].key(), r as usize)
}

/// The heap holds the head of every run that is not used up, once, and
/// nothing else.
#[verifier::opaque]
pub open spec fn heap_ok<T: Radixable>(
    heap: Seq<Entry>,
    s: Seq<T>,
    runs: Seq<(usize, usize)>,
    cursors: Seq<usize>,
) -> bool {
    &&& forall|i: int|
        0 <= i < heap.len() ==> (#[trigger] heap[i]).1 < runs.len() && cursors[heap[i].1 as int]
            < runs[heap[i].1 as int].1 && heap[i] == head_entry(s, cursors, heap[i].1 as int)
    &&& forall|r: int|
        0 <= r < runs.len() && cursors[r] < runs[r].1 ==> heap.contains(
            #[trigger] head_entry(s, cursors, r),
        )
    &&& heap.no_duplicates()
}

/// `heap_ok` does not depend on the order of the entries.
proof fn lemma_heap_ok_perm<T: Radixable>(
    a: Seq<Entry>,
    b: Seq<Entry>,
    s: Seq<T>,
    runs: Seq<(usize, usize)>,
    cursors: Seq<usize>,
)
    requires
        heap_ok(a, s, runs, cursors),
        a.to_multiset() == b.to_multiset(),
    ensures
        heap_ok(b, s, runs, cursors),
{
    reveal(heap_ok);
    assert forall|i: int| 0 <= i < b.len() implies (#[trigger] b[i]).1 < runs.len()
        && cursors[b[i].1 as int] < runs[b[i].1 as int].1 && b[i] == head_entry(
        s,
        cursors,
        b[i].1 as int,
    ) by {
        assert(b.contains(b[i]));
        to_multiset_contains(b, b[i]);
        to_multiset_contains(a, b[i]);
        let j = choose|j: int| 0 <= j < a.len() && a[j] == b[i];
        assert(a[j].1 < runs.len());
    }
    assert forall|r: int| 0 <= r < runs.len() && cursors[r] < runs[r].1 implies b.contains(
        #[trigger] head_entry(s, cursors, r),
    ) by {
        to_multiset_contains(a, head_entry(s, cursors, r));
        to_multiset_contains(b, head_entry(s, cursors, r));
    }
    a.lemma_multiset_has_no_duplicates();
    b.lemma_multiset_has_no_duplicates_conv();
}

/// The root of the heap is the head of a run that is not used up.
proof fn lemma_root_entry<T: Radixable>(
    heap: Seq<Entry>,
    s: Seq<T>,
    runs: Seq<(usize, usize)>,
    cursors: Seq<usize>,
)
    requires
        heap.len() > 0,
        heap_ok(heap, s, runs, cursors),
    ensures
        heap[0].1 < runs.len(),
        cursors[heap[0].1 as int] < runs[heap[0].1 as int].1,
        heap[0].0 == s[cursors[heap[0].1 as int] as int].key(),
{
    reveal(heap_ok);
}

/// With no entry left in the heap, every run is used up.
proof fn lemma_heap_empty<T: Radixable>(
    heap: Seq<Entry>,
    s: Seq<T>,
    runs: Seq<(usize, usize)>,
    cursors: Seq<usize>,
)
    requires
        heap.len() == 0,
        heap_ok(heap, s, runs, cursors),
        cursors_ok(runs, cursors),
    ensures
        forall|q: int| 0 <= q < runs.len() ==> #[trigger] cursors[q] == runs[q].1,
{
    reveal(heap_ok);
    assert forall|q: int| 0 <= q < runs.len() implies #[trigger] cursors[q] == runs[q].1 by {
        if cursors[q] < runs[q].1 {
            assert(heap.contains(head_entry(s, cursors, q)));
        }
    }
}

/// In a heap that is `heap_ok`, the root's run is in no other entry.
proof fn lemma_root_run_unique<T: Radixable>(
    heap: Seq<Entry>,
    s: Seq<T>,
    runs: Seq<(usize, usize)>,
    cursors: Seq<usize>,
    i: int,
)
    requires
        heap_ok(heap, s, runs, cursors),
        0 < i < heap.len(),
    ensures
        heap[i].1 != heap[0].1,
{
    reveal(heap_ok);
    if heap[i].1 == heap[0].1 {
        assert(heap[i] == head_entry(s, cursors, heap[i].1 as int));
        assert(heap[0] == head_entry(s, cursors, heap[0].1 as int));
        assert(heap[i] == heap[0]);
    }
}

/// The head of the next run joins the heads of the runs before it.
proof fn lemma_heap_ok_insert<T: Radixable>(
    heap: Seq<Entry>,
    s: Seq<T>,
    runs: Seq<(usize, usize)>,
    cursors: Seq<usize>,
    r: int,
    at: int,
)
    requires
        0 <= r < runs.len() <= usize::MAX,
        cursors.len() == r,
        runs[r].0 < runs[r].1,
        0 <= at <= heap.len(),
        heap_ok(heap, s, runs.take(r), cursors),
    ensures
        heap_ok(
            heap.insert(at, (s[runs[r].0 as int].key(), r as usize)),
            s,
            runs.take(r + 1),
            cursors.push(runs[r].0),
        ),
{
    reveal(heap_ok);
    let e: Entry = (s[runs[r].0 as int].key(), r as usize);
    let next = heap.insert(at, e);
    let before_runs = runs.take(r);
    let after_runs = runs.take(r + 1);
    let after = cursors.push(runs[r].0);
    assert forall|i: int| 0 <= i < next.len() implies (#[trigger] next[i]).1 < after_runs.len()
        && after[next[i].1 as int] < after_runs[next[i].1 as int].1 && next[i] == head_entry(
        s,
        after,
        next[i].1 as int,
    ) by {
        if i < at {
            assert(next[i] == heap[i]);
            assert(heap[i].1 < before_runs.len());
        } else if i > at {
            assert(next[i] == heap[i - 1]);
            assert(heap[i - 1].1 < before_runs.len());
        }
    }
    assert forall|q: int|
        0 <= q < after_runs.len() && after[q] < after_runs[q].1 implies next.contains(
        #[trigger] head_entry(s, after, q),
    ) by {
        if q < r {
            let x = head_entry(s, cursors, q);
            assert(before_runs[q] == after_runs[q]);
            assert(heap.contains(x));
            let i = choose|i: int| 0 <= i < heap.len() && heap[i] == x;
            if i < at {
                assert(next[i] == x);
            } else {
                assert(next[i + 1] == x);
            }
        } else {
            assert(next[at] == e);
        }
    }
    assert forall|i: int, j: int|
        0 <= i < next.len() && 0 <= j < next.len() && i != j implies next[i] != next[j] by {
        let oi = if i < at {
            i
        } else {
            i - 1
        };
        let oj = if j < at {
            j
        } else {
            j - 1
        };
        if i == at {
            assert(next[j] == heap[oj]);
            assert(heap[oj].1 < before_runs.len());
        } else if j == at {
            assert(next[i] == heap[oi]);
            assert(heap[oi].1 < before_runs.len());
        } else {
            assert(next[i] == heap[oi] && next[j] == heap[oj]);
        }
    }
}

/// An empty run adds no head.
proof fn lemma_heap_ok_skip<T: Radixable>(
    heap: Seq<Entry>,
    s: Seq<T>,
    runs: Seq<(usize, usize)>,
    cursors: Seq<usize>,
    r: int,
)
    requires
        0 <= r < runs.len() <= usize::MAX,
        cursors.len() == r,
        runs[r].0 >= runs[r].1,
        heap_ok(heap, s, runs.take(r), cursors),
    ensures
        heap_ok(heap, s, runs.take(r + 1), cursors.push(runs[r].0)),
{
    reveal(heap_ok);
    let before_runs = runs.take(r);
    let after_runs = runs.take(r + 1);
    let after = cursors.push(runs[r].0);
    assert forall|i: int| 0 <= i < heap.len() implies (#[trigger] heap[i]).1 < after_runs.len()
        && after[heap[i].1 as int] < after_runs[heap[i].1 as int].1 && heap[i] == head_entry(
        s,
        after,
        heap[i].1 as int,
    ) by {
        assert(heap[i].1 < before_runs.len());
    }
    assert forall|q: int|
        0 <= q < after_runs.len() && after[q] < after_runs[q].1 implies heap.contains(
        #[trigger] head_entry(s, after, q),
    ) by {
        assert(before_runs[q] == after_runs[q]);
        assert(heap.contains(head_entry(s, cursors, q)));
    }
}

/// No element that the runs still hold has a key below `k`.
#[verifier::opaque]
pub open spec fn rest_at_least<T: Radixable>(
    s: Seq<T>,
    runs: Seq<(usize, usize)>,
    cursors: Seq<usize>,
    k: u128,
) -> bool {
    forall|q: int, j: int|
        #![trigger runs[q], s[j]]
        0 <= q < runs.len() && cursors[q] <= j < runs[q].1 ==> k <= s[j].key()
}

/// The root of the heap is the head with the least key, and no element
/// that remains has a smaller one.
proof fn lemma_root_is_least<T: Radixable>(
    heap: Seq<Entry>,
    s: Seq<T>,
    runs: Seq<(usize, usize)>,
    cursors: Seq<usize>,
)
    requires
        heap.len() > 0,
        is_heap(heap),
        heap_ok(heap, s, runs, cursors),
        cursors_ok(runs, cursors),
        covers(runs, s.len() as int),
        runs_sorted(s, runs),
    ensures
        rest_at_least(s, runs, cursors, heap[0].0),
{
    reveal(heap_ok);
    reveal(rest_at_least);
    assert forall|q: int, j: int|
        #![trigger runs[q], s[j]]
        0 <= q < runs.len() && cursors[q] <= j < runs[q].1 implies heap[0].0 <= s[j].key() by {
        lemma_run_bounds(runs, s.len() as int, q);
        let e = head_entry(s, cursors, q);
        assert(heap.contains(e));
        let i = choose|i: int| 0 <= i < heap.len() && heap[i] == e;
        lemma_heap_root(heap, i);
        let piece = s.subrange(runs[q].0 as int, runs[q].1 as int);
        assert(sorted(piece));
        assert(piece[cursors[q] - runs[q].0] == s[cursors[q] as int]);
        assert(piece[j - runs[q].0] == s[j]);
    }
}

/// Taking the head of the least run keeps the output sorted and below what
/// remains, and moves one element from what remains to the output.
proof fn lemma_taken<T: Radixable>(
    out: Seq<T>,
    s: Seq<T>,
    runs: Seq<(usize, usize)>,
    cursors: Seq<usize>,
    run: int,
)
    requires
        0 <= run < runs.len(),
        cursors_ok(runs, cursors),
        cursors[run] < runs[run].1 <= s.len(),
        sorted(out),
        out.len() > 0 ==> rest_at_least(s, runs, cursors, out[out.len() - 1].key()),
        rest_at_least(s, runs, cursors, s[cursors[run] as int].key()),
        out.to_multiset().add(remaining(s, runs, cursors, runs.len() as int)) == s.to_multiset(),
        remaining(s, runs, cursors, runs.len() as int).count(s[cursors[run] as int]) > 0,
        remaining(s, runs, cursors.update(run, (cursors[run] + 1) as usize), runs.len() as int)
            == remaining(s, runs, cursors, runs.len() as int).remove(s[cursors[run] as int]),
    ensures
        ({
            let x = s[cursors[run] as int];
            let next = cursors.update(run, (cursors[run] + 1) as usize);
            &&& sorted(out.push(x))
            &&& rest_at_least(s, runs, next, x.key())
            &&& cursors_ok(runs, next)
            &&& out.push(x).to_multiset().add(remaining(s, runs, next, runs.len() as int))
                == s.to_multiset()
            &&& remaining(s, runs, next, runs.len() as int).len() < remaining(
                s,
                runs,
                cursors,
                runs.len() as int,
            ).len()
        }),
{
    reveal(rest_at_least);
    broadcast use vstd::multiset::group_multiset_axioms;

    let x = s[cursors[run] as int];
    let next = cursors.update(run, (cursors[run] + 1) as usize);
    let grown = out.push(x);
    to_multiset_build(out, x);
    assert(grown.to_multiset().add(remaining(s, runs, next, runs.len() as int))
        =~= s.to_multiset());
    assert forall|i: int, j: int| 0 <= i <= j < grown.len() implies grown[i].key()
        <= grown[j].key() by {
        if j == out.len() && i < j {
            assert(out[i].key() <= out[out.len() - 1].key());
            assert(runs[run].1 == runs[run].1);
            assert(out[out.len() - 1].key() <= s[cursors[run] as int].key());
        }
    }
    assert forall|q: int, j: int|
        #![trigger runs[q], s[j]]
        0 <= q < runs.len() && next[q] <= j < runs[q].1 implies x.key() <= s[j].key() by {
        assert(cursors[q] <= j);
    }
}

/// Where the root's run goes on, its next head takes the root's place.
proof fn lemma_heap_ok_advance<T: Radixable>(
    heap: Seq<Entry>,
    s: Seq<T>,
    runs: Seq<(usize, usize)>,
    cursors: Seq<usize>,
)
    requires
        heap.len() > 0,
        heap_ok(heap, s, runs, cursors),
        cursors.len() == runs.len(),
        runs.len() <= usize::MAX,
        cursors[heap[0].1 as int] + 1 < runs[heap[0].1 as int].1,
    ensures
        heap_ok(
            heap.update(0, (s[cursors[heap[0].1 as int] + 1].key(), heap[0].1)),
            s,
            runs,
            cursors.update(heap[0].1 as int, (cursors[heap[0].1 as int] + 1) as usize),
        ),
{
    reveal(heap_ok);
    let run = heap[0].1 as int;
    let next = cursors.update(run, (cursors[run] + 1) as usize);
    let e: Entry = (s[cursors[run] + 1].key(), heap[0].1);
    let after = heap.update(0, e);
    assert forall|i: int| 0 <= i < after.len() implies (#[trigger] after[i]).1 < runs.len()
        && next[after[i].1 as int] < runs[after[i].1 as int].1 && after[i] == head_entry(
        s,
        next,
        after[i].1 as int,
    ) by {
        if i > 0 {
            lemma_root_run_unique(heap, s, runs, cursors, i);
            assert(after[i] == heap[i]);
            assert(heap[i].1 < runs.len());
        }
    }
    assert forall|q: int| 0 <= q < runs.len() && next[q] < runs[q].1 implies after.contains(
        #[trigger] head_entry(s, next, q),
    ) by {
        if q == run {
            assert(after[0] == head_entry(s, next, q));
        } else {
            let old_e = head_entry(s, cursors, q);
            assert(heap.contains(old_e));
            let i = choose|i: int| 0 <= i < heap.len() && heap[i] == old_e;
            assert(after[i] == old_e);
        }
    }
    assert forall|i: int, j: int|
        0 <= i < after.len() && 0 <= j < after.len() && i != j implies after[i] != after[j] by {
        if i == 0 {
            lemma_root_run_unique(heap, s, runs, cursors, j);
        } else if j == 0 {
            lemma_root_run_unique(heap, s, runs, cursors, i);
        }
    }
}

/// Where the root's run is used up, the last entry takes the root's place.
proof fn lemma_heap_ok_exhaust<T: Radixable>(
    heap: Seq<Entry>,
    s: Seq<T>,
    runs: Seq<(usize, usize)>,
    cursors: Seq<usize>,
)
    requires
        heap.len() > 0,
        heap_ok(heap, s, runs, cursors),
        cursors.len() == runs.len(),
        runs.len() <= usize::MAX,
        cursors[heap[0].1 as int] + 1 == runs[heap[0].1 as int].1,
    ensures
        heap_ok(
            if heap.len() > 1 {
                heap.drop_last().update(0, heap.last())
            } else {
                Seq::<Entry>::empty()
            },
            s,
            runs,
            cursors.update(heap[0].1 as int, (cursors[heap[0].1 as int] + 1) as usize),
        ),
{
    reveal(heap_ok);
    let run = heap[0].1 as int;
    let next = cursors.update(run, (cursors[run] + 1) as usize);
    let len = heap.len() as int;
    let after = if heap.len() > 1 {
        heap.drop_last().update(0, heap.last())
    } else {
        Seq::<Entry>::empty()
    };
    assert forall|i: int| 0 <= i < after.len() implies (#[trigger] after[i]).1 < runs.len()
        && next[after[i].1 as int] < runs[after[i].1 as int].1 && after[i] == head_entry(
        s,
        next,
        after[i].1 as int,
    ) by {
        let from = if i == 0 {
            len - 1
        } else {
            i
        };
        assert(after[i] == heap[from]);
        lemma_root_run_unique(heap, s, runs, cursors, from);
        assert(heap[from].1 < runs.len());
    }
    assert forall|q: int| 0 <= q < runs.len() && next[q] < runs[q].1 implies after.contains(
        #[trigger] head_entry(s, next, q),
    ) by {
        let old_e = head_entry(s, cursors, q);
        assert(heap.contains(old_e));
        let i = choose|i: int| 0 <= i < heap.len() && heap[i] == old_e;
        if i == len - 1 {
            assert(after[0] == old_e);
        } else {
            assert(after[i] == old_e);
        }
    }
    assert forall|i: int, j: int|
        0 <= i < after.len() && 0 <= j < after.len() && i != j implies after[i] != after[j] by {
        let fi = if i == 0 {
            len - 1
        } else {
            i
        };
        let fj = if j == 0 {
            len - 1
        } else {
            j
        };
        assert(after[i] == heap[fi] && after[j] == heap[fj]);
    }
}

/// Inserts an entry into a vector that is sorted by the order of the heap.
fn insert_sorted(heap: &mut Vec<Entry>, e: Entry)
    requires
        forall|i: int, j: int|
            0 <= i <= j < old(heap)@.len() ==> entry_le(old(heap)@[i], old(heap)@[j]),
    ensures
        forall|i: int, j: int|
            0 <= i <= j < final(heap)@.len() ==> entry_le(final(heap)@[i], final(heap)@[j]),
        exists|at: int|
            0 <= at <= old(heap)@.len() && final(heap)@ == #[trigger] old(heap)@.insert(at, e),
{
    let n: usize = heap.len();
    let mut at: usize = 0;
    while at < n && !entry_lt(e, heap[at])
        invariant
            at <= n,
            n == heap@.len(),
            heap@ == old(heap)@,
            forall|i: int| 0 <= i < at ==> entry_le(heap@[i], e),
        decreases n - at,
    {
        at = at + 1;
    }
    heap.insert(at, e);
    proof {
        assert(heap@ == old(heap)@.insert(at as int, e));
        assert forall|i: int, j: int| 0 <= i <= j < heap@.len() implies entry_le(
            heap@[i],
            heap@[j],
        ) by {
            let o = old(heap)@;
            if i == at {
                if j > at {
                    assert(heap@[j] == o[j - 1]);
                    assert(entry_le(o[at as int], o[j - 1]));
                }
            } else if j == at {
            } else {
                let oi = if i < at {
                    i
                } else {
                    i - 1
                };
                let oj = if j < at {
                    j
                } else {
                    j - 1
                };
                assert(heap@[i] == o[oi] && heap@[j] == o[oj]);
            }
        }
    }
}

/// A vector sorted by the order of the heap is a heap.
proof fn lemma_sorted_is_heap(h: Seq<Entry>)
    requires
        forall|i: int, j: int| 0 <= i <= j < h.len() ==> entry_le(h[i], h[j]),
    ensures
        is_heap(h),
{
    reveal(is_heap);
}

/// Merges the sorted runs of the slice into one.
///
/// The runs must lie one after the other, cover the slice, and each be
/// sorted; the slice comes out sorted, holding the elements it held.
pub fn k_way_merge<T: Radixable + Copy>(arr: &mut [T], runs: &Vec<(usize, usize)>)
    requires
        covers(runs@, old(arr)@.len() as int),
        runs_sorted(old(arr)@, runs@),
    ensures
        final(arr)@.len() == old(arr)@.len(),
        final(arr)@.to_multiset() == old(arr)@.to_multiset(),
        sorted(final(arr)@),
{
    let m: usize = runs.len();
    let n: usize = arr.len();
    let ghost s = arr@;
    if m <= 1 {
        proof {
            if m == 1 {
                assert(s.subrange(runs@[0].0 as int, runs@[0].1 as int) =~= s);
            }
        }
        return ;
    }
    let mut cursors: Vec<usize> = Vec::new();
    let mut heap: Vec<Entry> = Vec::new();
    let mut r: usize = 0;
    proof {
        reveal(heap_ok);
        assert(runs@.take(0).len() == 0);
        assert(heap_ok(heap@, s, runs@.take(0), cursors@));
    }
    while r < m
        invariant
            r <= m,
            m == runs@.len(),
            n == s.len(),
            arr@ == s,
            covers(runs@, n as int),
            cursors@.len() == r,
            forall|q: int| 0 <= q < r ==> #[trigger] cursors@[q] == runs@[q].0,
            forall|i: int, j: int| 0 <= i <= j < heap@.len() ==> entry_le(heap@[i], heap@[j]),
            heap_ok(heap@, s, runs@.take(r as int), cursors@),
        decreases m - r,
    {
        let start: usize = runs[r].0;
        let end: usize = runs[r].1;
        let ghost cursors_before = cursors@;
        let ghost before = heap@;
        proof {
            lemma_run_bounds(runs@, n as int, r as int);
        }
        cursors.push(start);
        if start < end {
            let e: Entry = (arr[start].into_key(), r);
            insert_sorted(&mut heap, e);
            proof {
                let at = choose|at: int|
                    0 <= at <= before.len() && heap@ == #[trigger] before.insert(at, e);
                lemma_heap_ok_insert(before, s, runs@, cursors_before, r as int, at);
            }
        } else {
            proof {
                lemma_heap_ok_skip(before, s, runs@, cursors_before, r as int);
            }
        }
        r = r + 1;
    }
    proof {
        assert(runs@.take(m as int) =~= runs@);
    }
    let mut out: Vec<T> = Vec::with_capacity(n);
    proof {
        lemma_sorted_is_heap(heap@);
        lemma_remaining_start(s, runs@, cursors@, m as int);
        assert(s.subrange(0, n as int) =~= s);
        assert(out@.to_multiset().add(remaining(s, runs@, cursors@, m as int)) =~= s.to_multiset())
            by {
            broadcast use vstd::multiset::group_multiset_axioms;

            to_multiset_len(out@);
            vstd::multiset::lemma_multiset_empty_len(out@.to_multiset());
        }
        assert forall|q: int| 0 <= q < m implies runs@[q].0 <= #[trigger] cursors@[q]
            <= runs@[q].1 by {
            lemma_run_bounds(runs@, n as int, q);
        }
    }
    while heap.len() > 0
        invariant
            m == runs@.len(),
            n == s.len(),
            arr@ == s,
            covers(runs@, n as int),
            runs_sorted(s, runs@),
            cursors_ok(runs@, cursors@),
            is_heap(heap@),
            heap_ok(heap@, s, runs@, cursors@),
            out@.to_multiset().add(remaining(s, runs@, cursors@, m as int)) == s.to_multiset(),
            sorted(out@),
            out@.len() > 0 ==> rest_at_least(s, runs@, cursors@, out@[out@.len() - 1].key()),
        decreases remaining(s, runs@, cursors@, m as int).len(),
    {
        let ghost cursors_before = cursors@;
        let ghost heap_before = heap@;
        let ghost out_before = out@;
        proof {
            lemma_root_entry(heap_before, s, runs@, cursors_before);
        }
        let top: Entry = heap[0];
        let run: usize = top.1;
        let at: usize = cursors[run];
        let end: usize = runs[run].1;
        proof {
            lemma_root_entry(heap_before, s, runs@, cursors_before);
            lemma_run_bounds(runs@, n as int, run as int);
            lemma_root_is_least(heap_before, s, runs@, cursors_before);
            lemma_remaining_step(s, runs@, cursors_before, m as int, run as int);
        }
        let x: T = arr[at];
        out.push(x);
        cursors[run] = at + 1;
        proof {
            lemma_taken(out_before, s, runs@, cursors_before, run as int);
        }
        if at + 1 < end {
            let e: Entry = (arr[at + 1].into_key(), run);
            heap[0] = e;
            proof {
                lemma_heap_ok_advance(heap_before, s, runs@, cursors_before);
            }
        } else {
            let last: Option<Entry> = heap.pop();
            if heap.len() > 0 {
                heap[0] = last.unwrap();
            }
            proof {
                lemma_heap_ok_exhaust(heap_before, s, runs@, cursors_before);
                if heap_before.len() > 1 {
                    assert(heap@ =~= heap_before.drop_last().update(0, heap_before.last()));
                } else {
                    assert(heap@ =~= Seq::<Entry>::empty());
                }
            }
        }
        let ghost replaced = heap@;
        proof {
            lemma_root_replaced(heap_before, replaced);
        }
        sift_down(&mut heap);
        proof {
            lemma_heap_ok_perm(replaced, heap@, s, runs@, cursors@);
        }
    }
    proof {
        lemma_heap_empty(heap@, s, runs@, cursors@);
        lemma_remaining_end(s, runs@, cursors@, m as int);
        assert(out@.to_multiset() =~= s.to_multiset()) by {
            broadcast use vstd::multiset::group_multiset_axioms;

        }
        to_multiset_len(out@);
        to_multiset_len(s);
    }
    copy_nonoverlapping(out.as_slice(), arr, n);
    proof {
        assert(arr@ =~= out@);
    }
}

} // verus!
