//! The histogram and the block swaps, with the work spread over the threads
//! of a pool.

use crate::algo::k_way_merge::{covers, lemma_covers_chain, lemma_run_bounds};
use crate::buckets::{count, is_histogram, lemma_count_add, lemma_count_empty, lemma_count_le_len};
use crate::order::digit_fn;
use crate::radixable::Radixable;
use crate::sorts::comparative_sort::lemma_swap_multiset;
use crate::sorts::utils::{
    aggregate_histograms, chunk_bounds, column_sum, get_histogram, ranges_swapped,
    split_into_chunks, swaps_applied, swaps_fit, Params,
};
use rayon::ThreadPool;
use rayon::iter::{
    IndexedParallelIterator, IntoParallelRefIterator, IntoParallelRefMutIterator, ParallelIterator,
};
use vstd::prelude::*;

verus! {

/// `ThreadPool` of rayon: a pool of threads, of which nothing is known
/// here but that work can be handed to it.
#[verifier::external_type_specification]
#[verifier::external_body]
pub struct ExThreadPool(ThreadPool);

/// Histogram of the range `lo..hi` of a slice.
pub fn get_histogram_of_range<T: Radixable>(
    arr: &[T],
    lo: usize,
    hi: usize,
    p: &Params,
    mask: u64,
    shift: usize,
) -> (h: Vec<usize>)
    requires
        lo <= hi <= arr@.len(),
        p.wf(),
        mask == p.radix_range - 1,
        shift < 128,
    ensures
        h@.len() == p.radix_range,
        is_histogram(
            h@,
            arr@.subrange(lo as int, hi as int),
            digit_fn::<T>(shift as nat, p.radix as nat),
        ),
{
    let part: &[T] = vstd::slice::slice_subrange(arr, lo, hi);
    get_histogram(part, p, mask, shift)
}

/// `ThreadPool::install` of rayon around `par_iter`, `map` and
/// `collect_into_vec`: `get_histogram_of_range` is run on each pair of
/// bounds, on the threads of the pool, and the results are collected in the
/// order of the bounds.
#[verifier::external_body]
fn chunk_histograms<T: Radixable + Sync>(
    arr: &[T],
    bounds: &Vec<(usize, usize)>,
    p: &Params,
    mask: u64,
    shift: usize,
    pool: &ThreadPool,
) -> (hs: Vec<Vec<usize>>)
    requires
        p.wf(),
        mask == p.radix_range - 1,
        shift < 128,
        forall|i: int|
            0 <= i < bounds@.len() ==> (#[trigger] bounds@[i]).0 <= bounds@[i].1 <= arr@.len(),
    ensures
        hs@.len() == bounds@.len(),
        forall|i: int|
            0 <= i < bounds@.len() ==> (#[trigger] hs@[i])@.len() == p.radix_range && is_histogram(
                hs@[i]@,
                arr@.subrange(bounds@[i].0 as int, bounds@[i].1 as int),
                digit_fn::<T>(shift as nat, p.radix as nat),
            ),
{
    let mut histograms: Vec<Vec<usize>> = Vec::new();
    pool.install(
        || {
            bounds.par_iter().map(
                |b| get_histogram_of_range(arr, b.0, b.1, p, mask, shift),
            ).collect_into_vec(&mut histograms)
        },
    );
    histograms
}

/// The chunks that `split_into_chunks` cuts lie one after the other and
/// cover the slice.
pub proof fn lemma_chunk_bounds_cover(len: nat, chunk_n: nat)
    requires
        chunk_n >= 1,
        len <= usize::MAX,
    ensures
        covers(chunk_bounds(len, chunk_n), len as int),
{
    let part = (len / chunk_n) as int;
    let c = chunk_n as int;
    let b = chunk_bounds(len, chunk_n);
    vstd::arithmetic::div_mod::lemma_fundamental_div_mod(len as int, c);
    vstd::arithmetic::div_mod::lemma_mod_pos_bound(len as int, c);
    assert(0 <= (c - 1) * part <= c * part) by (nonlinear_arith)
        requires
            c >= 1,
            part >= 0,
    ;
    assert forall|r: int| 0 <= r < b.len() implies (#[trigger] b[r]).0 <= b[r].1 by {
        if r < c - 1 {
            lemma_chunk_step(r, c, part);
        }
    }
    assert forall|r: int|
        #![trigger b[r], b[r + 1]]
        0 <= r < b.len() - 1 implies b[r].1 == b[r + 1].0 by {
        lemma_chunk_step(r, c, part);
        if r + 1 < c - 1 {
            lemma_chunk_step(r + 1, c, part);
        }
    }
    if b.len() > 0 {
        if c - 1 > 0 {
            lemma_chunk_step(0, c, part);
        }
        assert(b[0].0 == 0);
        if b.len() == c - 1 {
            lemma_chunk_step(c - 2, c, part);
        }
        assert(b[b.len() - 1].1 == len);
    }
}

/// The bounds of an even chunk are in order and within the even part.
proof fn lemma_chunk_step(r: int, c: int, part: int)
    requires
        0 <= r < c - 1,
        part >= 0,
    ensures
        0 <= r * part <= (r + 1) * part <= (c - 1) * part,
        r == 0 ==> r * part == 0,
{
    assert(0 <= r * part <= (r + 1) * part <= (c - 1) * part) by (nonlinear_arith)
        requires
            0 <= r,
            r + 1 <= c - 1,
            part >= 0,
    ;
}

/// The histograms of the chunks of a slice add up to the histogram of the
/// slice.
pub proof fn lemma_chunks_add_up<T>(
    s: Seq<T>,
    bounds: Seq<(usize, usize)>,
    hs: Seq<Vec<usize>>,
    f: spec_fn(T) -> int,
    d: int,
    k: int,
)
    requires
        covers(bounds, s.len() as int),
        hs.len() == bounds.len(),
        forall|i: int|
            0 <= i < bounds.len() ==> 0 <= d < (#[trigger] hs[i])@.len() && is_histogram(
                hs[i]@,
                s.subrange(bounds[i].0 as int, bounds[i].1 as int),
                f,
            ),
        0 < k <= bounds.len(),
    ensures
        bounds[k - 1].1 <= s.len(),
        column_sum(hs, d, k) == count(s.subrange(0, bounds[k - 1].1 as int), f, d),
    decreases k,
{
    lemma_run_bounds(bounds, s.len() as int, k - 1);
    let last = s.subrange(bounds[k - 1].0 as int, bounds[k - 1].1 as int);
    assert(hs[k - 1]@.len() > d && is_histogram(hs[k - 1]@, last, f));
    assert(hs[k - 1]@[d] as nat == count(last, f, d));
    if k == 1 {
        assert(s.subrange(0, bounds[0].1 as int) =~= last);
        assert(column_sum(hs, d, 0) == 0);
    } else {
        lemma_chunks_add_up(s, bounds, hs, f, d, k - 1);
        lemma_covers_chain(bounds, s.len() as int, k - 2);
        let front = s.subrange(0, bounds[k - 2].1 as int);
        assert(s.subrange(0, bounds[k - 1].1 as int) =~= front + last);
        lemma_count_add(front, last, f, d);
    }
}

/// Histogram of the digits that `mask` and `shift` select, computed chunk
/// by chunk on the threads of `pool` and added up.
pub fn get_histogram_mt<T: Radixable + Sync>(
    arr: &[T],
    p: &Params,
    mask: u64,
    shift: usize,
    pool: &ThreadPool,
    chunk_n: usize,
) -> (h: Vec<usize>)
    requires
        p.wf(),
        mask == p.radix_range - 1,
        shift < 128,
        chunk_n >= 1,
    ensures
        h@.len() == p.radix_range,
        is_histogram(h@, arr@, digit_fn::<T>(shift as nat, p.radix as nat)),
{
    let ghost f = digit_fn::<T>(shift as nat, p.radix as nat);
    let n: usize = arr.len();
    let parts: Vec<(usize, usize)> = split_into_chunks(arr, chunk_n);
    proof {
        lemma_chunk_bounds_cover(n as nat, chunk_n as nat);
        assert forall|i: int| 0 <= i < parts@.len() implies (#[trigger] parts@[i]).0 <= parts@[i].1
            <= arr@.len() by {
            lemma_run_bounds(parts@, n as int, i);
        }
    }
    if parts.len() == 0 {
        let empty: Vec<usize> = vec![0usize; p.radix_range];
        proof {
            assert(arr@ =~= Seq::<T>::empty());
            assert forall|d: int| 0 <= d < empty@.len() implies #[trigger] empty@[d] as nat
                == count(arr@, f, d) by {
                lemma_count_empty(f, d);
            }
        }
        return empty;
    }
    let histograms: Vec<Vec<usize>> = chunk_histograms(arr, &parts, p, mask, shift, pool);
    proof {
        let m = parts@.len() as int;
        assert(arr@.subrange(0, n as int) =~= arr@);
        assert forall|d: int| 0 <= d < histograms@[0]@.len() implies #[trigger] column_sum(
            histograms@,
            d,
            m,
        ) == count(arr@, f, d) by {
            lemma_chunks_add_up(arr@, parts@, histograms@, f, d, m);
        }
        assert forall|d: int| 0 <= d < histograms@[0]@.len() implies #[trigger] column_sum(
            histograms@,
            d,
            m,
        ) <= usize::MAX by {
            lemma_count_le_len(arr@, f, d);
        }
    }
    aggregate_histograms(&histograms)
}

/// Exchanges two values.
pub fn swap_pair<T>(a: &mut T, b: &mut T)
    ensures
        *final(a) == *old(b),
        *final(b) == *old(a),
{
    core::mem::swap(a, b);
}

/// `par_iter_mut` of rayon on both slices, `zip` and `for_each`: the
/// elements of the two slices are exchanged pair by pair, by `swap_pair`,
/// on the threads of the current pool.
#[verifier::external_body]
fn par_swap<T: Send>(left: &mut [T], right: &mut [T])
    requires
        old(left)@.len() == old(right)@.len(),
    ensures
        final(left)@ == old(right)@,
        final(right)@ == old(left)@,
{
    left.par_iter_mut().zip(right.par_iter_mut()).for_each(|(a, b)| swap_pair(a, b));
}

/// Exchanging two ranges that lie apart rearranges a sequence and loses
/// nothing.
pub proof fn lemma_ranges_swapped_multiset<T>(s: Seq<T>, len: int, i: int, j: int)
    requires
        0 <= len,
        0 <= i,
        0 <= j,
        i + len <= s.len(),
        j + len <= s.len(),
        i + len <= j || j + len <= i,
    ensures
        ranges_swapped(s, len, i, j).to_multiset() == s.to_multiset(),
    decreases len,
{
    if len == 0 {
        assert(ranges_swapped(s, len, i, j) =~= s);
    } else {
        lemma_ranges_swapped_multiset(s, len - 1, i, j);
        let before = ranges_swapped(s, len - 1, i, j);
        let a = i + len - 1;
        let b = j + len - 1;
        lemma_swap_multiset(before, a, b);
        assert(ranges_swapped(s, len, i, j) =~= before.update(a, before[b]).update(b, before[a]));
    }
}

/// `swap_range`, the pairs of elements spread over the threads of the
/// current pool.
pub fn swap_range_mt<T: Copy + Send>(arr: &mut [T], len: usize, i: usize, j: usize)
    requires
        i + len <= old(arr)@.len(),
        j + len <= old(arr)@.len(),
        i + len <= j || j + len <= i,
    ensures
        final(arr)@ == ranges_swapped(old(arr)@, len as int, i as int, j as int),
        final(arr)@.to_multiset() == old(arr)@.to_multiset(),
{
    let n: usize = arr.len();
    let ghost before = arr@;
    proof {
        lemma_ranges_swapped_multiset(before, len as int, i as int, j as int);
    }
    let (a, b) = if i <= j {
        (i, j)
    } else {
        (j, i)
    };
    if len == 0 {
        proof {
            assert(arr@ =~= ranges_swapped(before, len as int, i as int, j as int));
        }
        return ;
    }
    let (front, back) = arr.split_at_mut(b);
    let (_head, tail) = front.split_at_mut(a);
    let (left, _gap) = tail.split_at_mut(len);
    let (right, _rest) = back.split_at_mut(len);
    par_swap(left, right);
    proof {
        assert(final(arr)@ =~= ranges_swapped(before, len as int, i as int, j as int));
    }
}

/// `perform_swaps`, each exchange spread over the threads of the current
/// pool.
pub fn perform_swaps_mt<T: Copy + Send>(
    arr: &mut [T],
    swaps: Vec<(usize, usize, usize)>,
    offset: usize,
)
    requires
        swaps_fit(swaps@, offset as int, old(arr)@.len() as int),
    ensures
        final(arr)@ == swaps_applied(old(arr)@, swaps@, offset as int, swaps@.len() as int),
        final(arr)@.to_multiset() == old(arr)@.to_multiset(),
{
    let m: usize = swaps.len();
    let mut k: usize = 0;
    while k < m
        invariant
            k <= m,
            m == swaps@.len(),
            arr@.len() == old(arr)@.len(),
            swaps_fit(swaps@, offset as int, arr@.len() as int),
            arr@ == swaps_applied(old(arr)@, swaps@, offset as int, k as int),
            arr@.to_multiset() == old(arr)@.to_multiset(),
        decreases m - k,
    {
        let (len, i, j) = swaps[k];
        proof {
            assert(swaps@[k as int] == (len, i, j));
        }
        swap_range_mt(arr, len, i - offset, j - offset);
        k = k + 1;
    }
}

} // verus!
