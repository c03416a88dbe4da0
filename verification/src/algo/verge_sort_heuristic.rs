//! Verge sort preprocessing: the slice is cut into runs that are already in
//! order and stretches that are not; the latter are sorted by a radix sort,
//! so that a merge of the runs finishes the job.

use crate::algo::k_way_merge::{covers, lemma_covers_chain, lemma_run_bounds, runs_sorted};
use crate::order::sorted;
use crate::radixable::Radixable;
use crate::sorts::american_flag_sort::{lemma_range_rearranged, range_rearranged};
use crate::sorts::comparative_sort::lemma_swap_multiset;
use crate::sorts::lsd_sort::lsd_run;
use crate::sorts::msd_sort::msd_run;
use crate::sorts::ska_sort::ska_run;
use vstd::prelude::*;

verus! {

/// Shortest run that is kept as it is; shorter ones join the stretch that
/// is sorted by radix.
pub const VERGE_MIN_RUN: usize = 1024;

/// Most pieces that are worth merging; a slice with more is sorted as a
/// whole.
pub const VERGE_MAX_RUNS: usize = 64;

/// The sort that the preprocessing applies to what is not in order.
#[derive(Clone, Copy, Debug)]
pub enum RunSort {
    /// LSD radix sort.
    Lsd,
    /// LSD radix sort, with counting sort for narrow keys; the number is
    /// the least length at which two-digit keys go to counting sort.
    LsdHeuristic(usize),
    /// Ska sort.
    Ska,
    /// MSD radix sort with a scratch buffer.
    Msd,
}

/// Sorts a slice with the chosen sort.
pub fn sort_run<T: Radixable + Copy>(alg: RunSort, arr: &mut [T], radix: usize)
    requires
        1 <= radix <= 8,
        T::bits() <= 128,
    ensures
        final(arr)@.len() == old(arr)@.len(),
        final(arr)@.to_multiset() == old(arr)@.to_multiset(),
        sorted(final(arr)@),
{
    match alg {
        RunSort::Lsd => lsd_run(arr, radix, false, 0),
        RunSort::LsdHeuristic(min_cs2) => lsd_run(arr, radix, true, min_cs2),
        RunSort::Ska => ska_run(arr, radix),
        RunSort::Msd => msd_run(arr, radix),
    }
}

/// Sorts the range `lo..hi` of a slice with the chosen sort.
pub fn sort_range<T: Radixable + Copy>(
    alg: RunSort,
    arr: &mut [T],
    lo: usize,
    hi: usize,
    radix: usize,
)
    requires
        lo <= hi <= old(arr)@.len(),
        1 <= radix <= 8,
        T::bits() <= 128,
    ensures
        range_rearranged(old(arr)@, final(arr)@, lo as int, hi as int),
        sorted(final(arr)@.subrange(lo as int, hi as int)),
        final(arr)@.to_multiset() == old(arr)@.to_multiset(),
{
    let (_left, rest) = arr.split_at_mut(lo);
    let (mid, _right) = rest.split_at_mut(hi - lo);
    let ghost mid_before = mid@;
    sort_run(alg, mid, radix);
    proof {
        assert(old(arr)@.subrange(lo as int, hi as int) =~= mid_before);
        assert(final(arr)@.subrange(lo as int, hi as int) =~= mid@);
        lemma_range_rearranged(old(arr)@, final(arr)@, lo as int, hi as int);
    }
}

/// The range `lo..hi` of `before`, back to front, in its place.
pub open spec fn range_reversed<T>(before: Seq<T>, after: Seq<T>, lo: int, hi: int) -> bool {
    &&& after.len() == before.len()
    &&& forall|k: int| lo <= k < hi ==> #[trigger] after[k] == before[lo + hi - 1 - k]
    &&& forall|k: int| 0 <= k < before.len() && !(lo <= k < hi) ==> #[trigger] after[k] == before[k]
}

/// Reverses the range `lo..hi` of a slice in place.
pub fn reverse_range<T: Copy>(arr: &mut [T], lo: usize, hi: usize)
    requires
        lo <= hi <= old(arr)@.len(),
    ensures
        range_reversed(old(arr)@, final(arr)@, lo as int, hi as int),
        range_rearranged(old(arr)@, final(arr)@, lo as int, hi as int),
        final(arr)@.to_multiset() == old(arr)@.to_multiset(),
{
    let half: usize = (hi - lo) / 2;
    let mut k: usize = 0;
    while k < half
        invariant
            k <= half,
            half == (hi - lo) / 2,
            lo <= hi <= arr@.len(),
            arr@.len() == old(arr)@.len(),
            arr@.to_multiset() == old(arr)@.to_multiset(),
            forall|x: int|
                lo <= x < lo + k || hi - k <= x < hi ==> #[trigger] arr@[x] == old(arr)@[lo + hi - 1
                    - x],
            forall|x: int|
                0 <= x < arr@.len() && !(lo <= x < lo + k || hi - k <= x < hi)
                    ==> #[trigger] arr@[x] == old(arr)@[x],
        decreases half - k,
    {
        let a: usize = lo + k;
        let b: usize = hi - 1 - k;
        let ghost before = arr@;
        proof {
            lemma_swap_multiset(before, a as int, b as int);
        }
        let x: T = arr[a];
        let y: T = arr[b];
        arr[a] = y;
        arr[b] = x;
        k = k + 1;
    }
    proof {
        assert forall|x: int| lo <= x < hi implies #[trigger] arr@[x] == old(arr)@[lo + hi - 1
            - x] by {
            if !(lo <= x < lo + k || hi - k <= x < hi) {
                assert(x == lo + hi - 1 - x);
            }
        }
        let before = old(arr)@.subrange(lo as int, hi as int);
        assert(arr@.subrange(lo as int, hi as int) =~= before.reverse());
        before.lemma_reverse_to_multiset();
    }
}

/// The runs that are marked as in order are sorted.
pub open spec fn marked_sorted<T: Radixable>(
    s: Seq<T>,
    runs: Seq<(usize, usize)>,
    marks: Seq<bool>,
) -> bool {
    forall|r: int|
        0 <= r < runs.len() && marks[r] ==> sorted(
            s.subrange((#[trigger] runs[r]).0 as int, runs[r].1 as int),
        )
}

/// One more run after the last keeps the runs one after the other.
pub proof fn lemma_covers_push(runs: Seq<(usize, usize)>, end: usize, next: usize)
    requires
        covers(runs, end as int),
        end <= next,
    ensures
        covers(runs.push((end, next)), next as int),
{
    let grown = runs.push((end, next));
    assert forall|r: int| 0 <= r < grown.len() implies (#[trigger] grown[r]).0 <= grown[r].1 by {
        if r < runs.len() {
            assert(grown[r] == runs[r]);
        }
    }
    assert forall|r: int|
        #![trigger grown[r], grown[r + 1]]
        0 <= r < grown.len() - 1 implies grown[r].1 == grown[r + 1].0 by {
        assert(grown[r] == runs[r]);
        if r + 1 < runs.len() {
            assert(grown[r + 1] == runs[r + 1]);
        }
    }
    if runs.len() > 0 {
        assert(grown[0] == runs[0]);
    }
}

/// Of two runs, the earlier one ends before the later one starts.
pub proof fn lemma_runs_ordered(runs: Seq<(usize, usize)>, n: int, a: int, b: int)
    requires
        covers(runs, n),
        0 <= a < b < runs.len(),
    ensures
        runs[a].1 <= runs[b].0,
    decreases b - a,
{
    if a + 1 < b {
        lemma_runs_ordered(runs, n, a + 1, b);
        lemma_covers_chain(runs, n, a);
        assert(runs[a + 1].0 <= runs[a + 1].1);
    } else {
        lemma_covers_chain(runs, n, a);
    }
}

/// What the marked runs hold is the same in two slices that agree below
/// `upto`, where the runs end.
pub proof fn lemma_marked_kept<T: Radixable>(
    before: Seq<T>,
    after: Seq<T>,
    runs: Seq<(usize, usize)>,
    marks: Seq<bool>,
    upto: int,
)
    requires
        covers(runs, upto),
        upto <= before.len(),
        after.len() == before.len(),
        marked_sorted(before, runs, marks),
        forall|k: int| 0 <= k < upto ==> #[trigger] after[k] == before[k],
    ensures
        marked_sorted(after, runs, marks),
{
    assert forall|r: int| 0 <= r < runs.len() && marks[r] implies sorted(
        after.subrange((#[trigger] runs[r]).0 as int, runs[r].1 as int),
    ) by {
        lemma_run_bounds(runs, upto, r);
        assert(after.subrange(runs[r].0 as int, runs[r].1 as int) =~= before.subrange(
            runs[r].0 as int,
            runs[r].1 as int,
        ));
    }
}

/// Where the run that reaches position `j` ends: it goes on while each
/// element is below the one before it, if `descending`, and no lower than
/// it, if not.
pub open spec fn run_end<T: Radixable>(s: Seq<T>, j: int, descending: bool) -> int
    decreases s.len() - j,
{
    if 0 < j < s.len() && (if descending {
        s[j].key() < s[j - 1].key()
    } else {
        s[j].key() >= s[j - 1].key()
    }) {
        run_end(s, j + 1, descending)
    } else {
        j
    }
}

/// The run that starts at `i` descends: its second element is below its
/// first.
pub open spec fn descends_at<T: Radixable>(s: Seq<T>, i: int) -> bool {
    0 <= i && i + 1 < s.len() && s[i + 1].key() < s[i].key()
}

/// Where the run that starts at `i` ends.
pub open spec fn natural_end<T: Radixable>(s: Seq<T>, i: int) -> int {
    if descends_at(s, i) {
        run_end(s, i + 2, true)
    } else {
        run_end(s, i + 1, false)
    }
}

/// The pieces that the slice is cut into from `i` on, where the positions
/// from `pending` to `i` are a stretch that no run was found in yet: each
/// run of `VERGE_MIN_RUN` elements or more is a piece, and so is each
/// stretch between two such runs.
pub open spec fn runs_from<T: Radixable>(s: Seq<T>, i: int, pending: int) -> Seq<(usize, usize)>
    decreases s.len() - i,
{
    let j = natural_end(s, i);
    if i < 0 || i >= s.len() || j <= i || j > s.len() {
        if 0 <= pending < s.len() {
            seq![(pending as usize, s.len() as usize)]
        } else {
            Seq::empty()
        }
    } else if j - i >= VERGE_MIN_RUN {
        (if pending < i {
            seq![(pending as usize, i as usize)]
        } else {
            Seq::empty()
        }).push((i as usize, j as usize)) + runs_from(s, j, j)
    } else {
        runs_from(s, j, pending)
    }
}

/// For each piece of `runs_from`, whether it is a run.
pub open spec fn marks_from<T: Radixable>(s: Seq<T>, i: int, pending: int) -> Seq<bool>
    decreases s.len() - i,
{
    let j = natural_end(s, i);
    if i < 0 || i >= s.len() || j <= i || j > s.len() {
        if 0 <= pending < s.len() {
            seq![false]
        } else {
            Seq::empty()
        }
    } else if j - i >= VERGE_MIN_RUN {
        (if pending < i {
            seq![false]
        } else {
            Seq::empty()
        }).push(true) + marks_from(s, j, j)
    } else {
        marks_from(s, j, pending)
    }
}

/// The pieces of a slice hold what they held, each for itself.
pub open spec fn pieces_rearranged<T>(
    before: Seq<T>,
    after: Seq<T>,
    runs: Seq<(usize, usize)>,
) -> bool {
    forall|r: int|
        0 <= r < runs.len() ==> after.subrange((#[trigger] runs[r]).0 as int, runs[r].1 as int)
            .to_multiset() == before.subrange(runs[r].0 as int, runs[r].1 as int).to_multiset()
}

/// One more piece that holds what it held keeps the pieces so.
pub proof fn lemma_pieces_push<T>(
    before: Seq<T>,
    after: Seq<T>,
    runs: Seq<(usize, usize)>,
    run: (usize, usize),
)
    requires
        pieces_rearranged(before, after, runs),
        after.subrange(run.0 as int, run.1 as int).to_multiset() == before.subrange(
            run.0 as int,
            run.1 as int,
        ).to_multiset(),
    ensures
        pieces_rearranged(before, after, runs.push(run)),
{
    let grown = runs.push(run);
    assert forall|r: int| 0 <= r < grown.len() implies after.subrange(
        (#[trigger] grown[r]).0 as int,
        grown[r].1 as int,
    ).to_multiset() == before.subrange(grown[r].0 as int, grown[r].1 as int).to_multiset() by {
        if r < runs.len() {
            assert(grown[r] == runs[r]);
        }
    }
}

/// The pieces hold the same in two slices that agree below `upto`, where
/// the pieces end.
pub proof fn lemma_pieces_kept<T>(
    before: Seq<T>,
    then: Seq<T>,
    after: Seq<T>,
    runs: Seq<(usize, usize)>,
    upto: int,
)
    requires
        covers(runs, upto),
        upto <= then.len(),
        after.len() == then.len(),
        pieces_rearranged(before, then, runs),
        forall|k: int| 0 <= k < upto ==> #[trigger] after[k] == then[k],
    ensures
        pieces_rearranged(before, after, runs),
{
    assert forall|r: int| 0 <= r < runs.len() implies after.subrange(
        (#[trigger] runs[r]).0 as int,
        runs[r].1 as int,
    ).to_multiset() == before.subrange(runs[r].0 as int, runs[r].1 as int).to_multiset() by {
        lemma_run_bounds(runs, upto, r);
        assert(after.subrange(runs[r].0 as int, runs[r].1 as int) =~= then.subrange(
            runs[r].0 as int,
            runs[r].1 as int,
        ));
    }
}

/// Cuts the slice into runs of at least `VERGE_MIN_RUN` elements that are
/// in order, marked `true`, and the stretches between them, marked `false`.
/// Runs in descending order are reversed in place.
pub fn find_runs<T: Radixable + Copy>(arr: &mut [T]) -> (r: (Vec<(usize, usize)>, Vec<bool>))
    ensures
        final(arr)@.len() == old(arr)@.len(),
        final(arr)@.to_multiset() == old(arr)@.to_multiset(),
        r.0@ == runs_from(old(arr)@, 0, 0),
        r.1@ == marks_from(old(arr)@, 0, 0),
        covers(r.0@, old(arr)@.len() as int),
        r.1@.len() == r.0@.len(),
        marked_sorted(final(arr)@, r.0@, r.1@),
        pieces_rearranged(old(arr)@, final(arr)@, r.0@),
{
    let n: usize = arr.len();
    let ghost start = arr@;
    let mut runs: Vec<(usize, usize)> = Vec::new();
    let mut marks: Vec<bool> = Vec::new();
    let mut pending: usize = 0;
    let mut i: usize = 0;
    proof {
        assert(runs@ + runs_from(start, 0, 0) =~= runs_from(start, 0, 0));
        assert(marks@ + marks_from(start, 0, 0) =~= marks_from(start, 0, 0));
    }
    while i < n
        invariant
            pending <= i <= n,
            n == arr@.len(),
            n == start.len(),
            start == old(arr)@,
            arr@.to_multiset() == old(arr)@.to_multiset(),
            covers(runs@, pending as int),
            marks@.len() == runs@.len(),
            marked_sorted(arr@, runs@, marks@),
            pieces_rearranged(start, arr@, runs@),
            forall|k: int| pending <= k < n ==> #[trigger] arr@[k] == start[k],
            runs@ + runs_from(start, i as int, pending as int) == runs_from(start, 0, 0),
            marks@ + marks_from(start, i as int, pending as int) == marks_from(start, 0, 0),
        decreases n - i,
    {
        let mut j: usize = i + 1;
        let mut descending: bool = false;
        if j < n && arr[j].into_key() < arr[i].into_key() {
            descending = true;
            j = j + 1;
            while j < n && arr[j].into_key() < arr[j - 1].into_key()
                invariant
                    i < j <= n,
                    pending <= i,
                    n == arr@.len(),
                    n == start.len(),
                    forall|k: int| pending <= k < n ==> #[trigger] arr@[k] == start[k],
                    forall|a: int, b: int| i <= a < b < j ==> arr@[a].key() > arr@[b].key(),
                    run_end(start, j as int, true) == natural_end(start, i as int),
                decreases n - j,
            {
                j = j + 1;
            }
        } else {
            while j < n && arr[j].into_key() >= arr[j - 1].into_key()
                invariant
                    i < j <= n,
                    pending <= i,
                    n == arr@.len(),
                    n == start.len(),
                    forall|k: int| pending <= k < n ==> #[trigger] arr@[k] == start[k],
                    forall|a: int, b: int| i <= a <= b < j ==> arr@[a].key() <= arr@[b].key(),
                    run_end(start, j as int, false) == natural_end(start, i as int),
                decreases n - j,
            {
                j = j + 1;
            }
        }
        proof {
            assert(j as int == natural_end(start, i as int));
        }
        if j - i >= VERGE_MIN_RUN {
            let ghost before = arr@;
            let ghost runs_before = runs@;
            let ghost marks_before = marks@;
            if descending {
                reverse_range(arr, i, j);
            }
            proof {
                lemma_marked_kept(before, arr@, runs@, marks@, pending as int);
                lemma_pieces_kept(start, before, arr@, runs@, pending as int);
                let piece = arr@.subrange(i as int, j as int);
                assert forall|a: int, b: int| 0 <= a <= b < piece.len() implies piece[a].key()
                    <= piece[b].key() by {
                    if descending {
                        assert(arr@[i + a] == before[i + j - 1 - (i + a)]);
                        assert(arr@[i + b] == before[i + j - 1 - (i + b)]);
                    }
                }
                assert(before.subrange(i as int, j as int) =~= start.subrange(i as int, j as int));
                assert(arr@.subrange(pending as int, i as int) =~= start.subrange(
                    pending as int,
                    i as int,
                ));
            }
            if pending < i {
                proof {
                    lemma_covers_push(runs@, pending, i);
                    lemma_marked_push(arr@, runs@, marks@, (pending, i), false);
                    lemma_pieces_push(start, arr@, runs@, (pending, i));
                }
                runs.push((pending, i));
                marks.push(false);
            }
            proof {
                lemma_covers_push(runs@, i, j);
                lemma_marked_push(arr@, runs@, marks@, (i, j), true);
                lemma_pieces_push(start, arr@, runs@, (i, j));
            }
            runs.push((i, j));
            marks.push(true);
            proof {
                let head = (if pending < i {
                    seq![(pending, i)]
                } else {
                    Seq::<(usize, usize)>::empty()
                }).push((i, j));
                let flags = (if pending < i {
                    seq![false]
                } else {
                    Seq::<bool>::empty()
                }).push(true);
                assert(runs@ =~= runs_before + head);
                assert(marks@ =~= marks_before + flags);
                assert(runs_from(start, i as int, pending as int) == head + runs_from(
                    start,
                    j as int,
                    j as int,
                ));
                assert(marks_from(start, i as int, pending as int) == flags + marks_from(
                    start,
                    j as int,
                    j as int,
                ));
                assert(runs@ + runs_from(start, j as int, j as int) =~= runs_before + (head
                    + runs_from(start, j as int, j as int)));
                assert(marks@ + marks_from(start, j as int, j as int) =~= marks_before + (flags
                    + marks_from(start, j as int, j as int)));
            }
            pending = j;
        }
        i = j;
    }
    if pending < n {
        proof {
            lemma_covers_push(runs@, pending, n);
            lemma_marked_push(arr@, runs@, marks@, (pending, n), false);
            assert(arr@.subrange(pending as int, n as int) =~= start.subrange(
                pending as int,
                n as int,
            ));
            lemma_pieces_push(start, arr@, runs@, (pending, n));
            assert(runs@.push((pending, n)) =~= runs@ + runs_from(start, n as int, pending as int));
            assert(marks@.push(false) =~= marks@ + marks_from(start, n as int, pending as int));
        }
        runs.push((pending, n));
        marks.push(false);
    } else {
        proof {
            assert(runs@ =~= runs@ + runs_from(start, n as int, pending as int));
            assert(marks@ =~= marks@ + marks_from(start, n as int, pending as int));
        }
    }
    (runs, marks)
}

/// One more run, sorted if marked, keeps the marked runs sorted.
pub proof fn lemma_marked_push<T: Radixable>(
    s: Seq<T>,
    runs: Seq<(usize, usize)>,
    marks: Seq<bool>,
    run: (usize, usize),
    mark: bool,
)
    requires
        marks.len() == runs.len(),
        marked_sorted(s, runs, marks),
        mark ==> sorted(s.subrange(run.0 as int, run.1 as int)),
    ensures
        marked_sorted(s, runs.push(run), marks.push(mark)),
{
    let grown = runs.push(run);
    let marked = marks.push(mark);
    assert forall|r: int| 0 <= r < grown.len() && marked[r] implies sorted(
        s.subrange((#[trigger] grown[r]).0 as int, grown[r].1 as int),
    ) by {
        if r < runs.len() {
            assert(grown[r] == runs[r] && marked[r] == marks[r]);
        }
    }
}

/// The pieces that the preprocessing returns: those of `runs_from`, or the
/// whole slice as one piece where there are more than `VERGE_MAX_RUNS`.
pub open spec fn pieces_of<T: Radixable>(s: Seq<T>) -> Seq<(usize, usize)> {
    if runs_from(s, 0, 0).len() > VERGE_MAX_RUNS {
        seq![(0usize, s.len() as usize)]
    } else {
        runs_from(s, 0, 0)
    }
}

/// The preprocessing: finds the runs of the slice, sorts what lies between
/// them with `alg`, and returns the bounds of the pieces, each of which is
/// then sorted. A slice that falls into more than `VERGE_MAX_RUNS` pieces
/// is not sorted enough to gain from a merge: it is sorted as a whole and
/// returned as one piece.
pub fn verge_sort_preprocessing<T: Radixable + Copy>(
    arr: &mut [T],
    radix: usize,
    alg: RunSort,
) -> (runs: Vec<(usize, usize)>)
    requires
        1 <= radix <= 8,
        T::bits() <= 128,
    ensures
        final(arr)@.len() == old(arr)@.len(),
        final(arr)@.to_multiset() == old(arr)@.to_multiset(),
        runs@ == pieces_of(old(arr)@),
        covers(runs@, old(arr)@.len() as int),
        runs_sorted(final(arr)@, runs@),
        pieces_rearranged(old(arr)@, final(arr)@, runs@),
        runs@.len() <= VERGE_MAX_RUNS,
{
    let n: usize = arr.len();
    let (runs, marks) = find_runs(arr);
    let m: usize = runs.len();
    if m > VERGE_MAX_RUNS {
        sort_run(alg, arr, radix);
        let mut whole: Vec<(usize, usize)> = Vec::new();
        whole.push((0, n));
        proof {
            assert(arr@.subrange(0, n as int) =~= arr@);
            assert(old(arr)@.subrange(0, n as int) =~= old(arr)@);
            assert(whole@ =~= seq![(0usize, n)]);
        }
        return whole;
    }
    let ghost found = arr@;
    let mut r: usize = 0;
    while r < m
        invariant
            r <= m,
            m == runs@.len(),
            m == marks@.len(),
            n == arr@.len(),
            1 <= radix <= 8,
            T::bits() <= 128,
            covers(runs@, n as int),
            arr@.to_multiset() == old(arr)@.to_multiset(),
            pieces_rearranged(old(arr)@, arr@, runs@),
            forall|q: int|
                0 <= q < m && (q < r || marks@[q]) ==> sorted(
                    arr@.subrange((#[trigger] runs@[q]).0 as int, runs@[q].1 as int),
                ),
        decreases m - r,
    {
        if !marks[r] {
            let ghost before = arr@;
            proof {
                lemma_run_bounds(runs@, n as int, r as int);
            }
            sort_range(alg, arr, runs[r].0, runs[r].1, radix);
            proof {
                assert forall|q: int| 0 <= q < m && (q < r + 1 || marks@[q]) implies sorted(
                    arr@.subrange((#[trigger] runs@[q]).0 as int, runs@[q].1 as int),
                ) by {
                    lemma_run_bounds(runs@, n as int, q);
                    if q < r {
                        lemma_runs_ordered(runs@, n as int, q, r as int);
                    } else if q > r {
                        lemma_runs_ordered(runs@, n as int, r as int, q);
                    }
                    if q != r {
                        assert(arr@.subrange(runs@[q].0 as int, runs@[q].1 as int)
                            =~= before.subrange(runs@[q].0 as int, runs@[q].1 as int));
                    }
                }
                assert forall|q: int| 0 <= q < m implies arr@.subrange(
                    (#[trigger] runs@[q]).0 as int,
                    runs@[q].1 as int,
                ).to_multiset() == old(arr)@.subrange(
                    runs@[q].0 as int,
                    runs@[q].1 as int,
                ).to_multiset() by {
                    lemma_run_bounds(runs@, n as int, q);
                    if q < r {
                        lemma_runs_ordered(runs@, n as int, q, r as int);
                    } else if q > r {
                        lemma_runs_ordered(runs@, n as int, r as int, q);
                    }
                    if q != r {
                        assert(arr@.subrange(runs@[q].0 as int, runs@[q].1 as int)
                            =~= before.subrange(runs@[q].0 as int, runs@[q].1 as int));
                    }
                }
            }
        }
        r = r + 1;
    }
    runs
}

} // verus!
