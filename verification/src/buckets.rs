//! Buckets of a sequence under a bucket function: counts, histograms,
//! prefix sums, and the two shapes a distribution pass can leave behind.

use vstd::multiset::*;
use vstd::prelude::*;
use vstd::seq_lib::*;

verus! {

/// The elements that `f` sends to bucket `d`.
pub open spec fn in_bucket<T>(f: spec_fn(T) -> int, d: int) -> spec_fn(T) -> bool {
    |x: T| f(x) == d
}

/// The elements that `f` sends to a bucket in `0..k`.
pub open spec fn below<T>(f: spec_fn(T) -> int, k: int) -> spec_fn(T) -> bool {
    |x: T| 0 <= f(x) < k
}

/// How many elements of `s` fall into bucket `d`.
pub open spec fn count<T>(s: Seq<T>, f: spec_fn(T) -> int, d: int) -> nat {
    s.filter(in_bucket(f, d)).len()
}

/// Every element of `s` falls into a bucket in `0..k`.
pub open spec fn in_range<T>(s: Seq<T>, f: spec_fn(T) -> int, k: int) -> bool {
    forall|i: int| #![trigger s[i]] 0 <= i < s.len() ==> 0 <= f(s[i]) < k
}

/// `h` holds, bucket by bucket, the number of elements of `s`.
pub open spec fn is_histogram<T>(h: Seq<usize>, s: Seq<T>, f: spec_fn(T) -> int) -> bool {
    forall|d: int| 0 <= d < h.len() ==> #[trigger] h[d] as nat == count(s, f, d)
}

/// Sum of the first `d` entries of `h`: where bucket `d` starts.
pub open spec fn psum(h: Seq<usize>, d: int) -> int
    decreases d,
{
    if d <= 0 {
        0
    } else {
        psum(h, d - 1) + h[d - 1]
    }
}

/// The buckets `0..k` of `s` one after the other, each in the order of `s`:
/// what a stable distribution pass writes.
pub open spec fn bucket_concat<T>(s: Seq<T>, f: spec_fn(T) -> int, k: nat) -> Seq<T>
    decreases k,
{
    if k == 0 {
        Seq::empty()
    } else {
        bucket_concat(s, f, (k - 1) as nat) + s.filter(in_bucket(f, k - 1))
    }
}

/// Every element of `s` lies in the range of positions that `h` assigns to
/// its bucket: what an in-place distribution pass leaves.
pub open spec fn partitioned<T>(s: Seq<T>, f: spec_fn(T) -> int, h: Seq<usize>) -> bool {
    forall|i: int|
        #![trigger s[i]]
        0 <= i < s.len() ==> psum(h, f(s[i])) <= i < psum(h, f(s[i]) + 1)
}

/// `s` does not decrease under `g`.
pub open spec fn ordered_by<T>(s: Seq<T>, g: spec_fn(T) -> int) -> bool {
    forall|i: int, j: int| 0 <= i <= j < s.len() ==> g(s[i]) <= g(s[j])
}

/// `s` does not decrease under `f`, and under `g` where `f` ties.
pub open spec fn lex_ordered<T>(s: Seq<T>, f: spec_fn(T) -> int, g: spec_fn(T) -> int) -> bool {
    forall|i: int, j: int|
        0 <= i <= j < s.len() ==> f(s[i]) < f(s[j]) || (f(s[i]) == f(s[j]) && g(s[i]) <= g(s[j]))
}

/// One more element adds one to the count of its bucket, and nothing to

/// the others.
pub proof fn lemma_count_take_succ<T>(s: Seq<T>, f: spec_fn(T) -> int, d: int, i: int)
    requires
        0 <= i < s.len(),
    ensures
        count(s.take(i + 1), f, d) == count(s.take(i), f, d) + if f(s[i]) == d {
            1nat
        } else {
            0nat
        },
{
    assert(s.take(i + 1) =~= s.take(i).push(s[i]));
    s.take(i).lemma_filter_len_push(in_bucket(f, d), s[i]);
}

/// Nothing is counted in an empty sequence.
pub proof fn lemma_count_empty<T>(f: spec_fn(T) -> int, d: int)
    ensures
        count(Seq::<T>::empty(), f, d) == 0,
{
    Seq::<T>::empty().lemma_filter_len(in_bucket(f, d));
}

/// The counts of two sequences add up to the count of the two joined.
pub proof fn lemma_count_add<T>(a: Seq<T>, b: Seq<T>, f: spec_fn(T) -> int, d: int)
    ensures
        count(a + b, f, d) == count(a, f, d) + count(b, f, d),
{
    Seq::filter_distributes_over_add(a, b, in_bucket(f, d));
}

/// A bucket holds no more elements than the sequence has.
pub proof fn lemma_count_le_len<T>(s: Seq<T>, f: spec_fn(T) -> int, d: int)
    ensures
        count(s, f, d) <= s.len(),
{
    s.lemma_filter_len(in_bucket(f, d));
}

/// A bucket that an element falls into counts one at least.
pub proof fn lemma_count_pos<T>(s: Seq<T>, f: spec_fn(T) -> int, d: int, i: int)
    requires
        0 <= i < s.len(),
        f(s[i]) == d,
    ensures
        count(s, f, d) >= 1,
{
    s.lemma_filter_contains(in_bucket(f, d), i);
}

/// Where every element falls into one bucket, that bucket counts them all.
pub proof fn lemma_count_all<T>(s: Seq<T>, f: spec_fn(T) -> int, d: int)
    requires
        forall|i: int| #![trigger s[i]] 0 <= i < s.len() ==> f(s[i]) == d,
    ensures
        count(s, f, d) == s.len(),
        s.filter(in_bucket(f, d)) == s,
    decreases s.len(),
{
    reveal(Seq::filter);
    if s.len() > 0 {
        let t = s.drop_last();
        assert forall|i: int| #![trigger t[i]] 0 <= i < t.len() implies f(t[i]) == d by {
            assert(t[i] == s[i]);
        }
        lemma_count_all(t, f, d);
        assert(f(s[s.len() - 1]) == d);
        assert(s.filter(in_bucket(f, d)) =~= s);
    }
}

/// Filtering a sequence and filtering its multiset agree.
pub proof fn lemma_filter_multiset<T>(s: Seq<T>, p: spec_fn(T) -> bool)
    ensures
        s.filter(p).to_multiset() == s.to_multiset().filter(p),
    decreases s.len(),
{
    broadcast use group_multiset_axioms;

    reveal(Seq::filter);
    let lhs = s.filter(p).to_multiset();
    let rhs = s.to_multiset().filter(p);
    if s.len() == 0 {
        to_multiset_len(s);
        to_multiset_len(s.filter(p));
        lemma_multiset_empty_len(s.to_multiset());
        lemma_multiset_empty_len(lhs);
        assert forall|v: T| lhs.count(v) == rhs.count(v) by {}
    } else {
        let t = s.drop_last();
        let x = s.last();
        lemma_filter_multiset(t, p);
        assert(s =~= t.push(x));
        to_multiset_build(t, x);
        assert(s.to_multiset() == t.to_multiset().insert(x));
        if p(x) {
            to_multiset_build(t.filter(p), x);
            assert(lhs == t.filter(p).to_multiset().insert(x));
        } else {
            assert(lhs == t.filter(p).to_multiset());
        }
        assert forall|v: T| lhs.count(v) == rhs.count(v) by {
            assert(t.to_multiset().filter(p).count(v) == if p(v) {
                t.to_multiset().count(v)
            } else {
                0
            });
        }
    }
    assert(lhs =~= rhs);
}

/// The count of a bucket depends on the elements only, not on their order.
pub proof fn lemma_count_perm<T>(a: Seq<T>, b: Seq<T>, f: spec_fn(T) -> int, d: int)
    requires
        a.to_multiset() == b.to_multiset(),
    ensures
        count(a, f, d) == count(b, f, d),
{
    lemma_filter_multiset(a, in_bucket(f, d));
    lemma_filter_multiset(b, in_bucket(f, d));
    to_multiset_len(a.filter(in_bucket(f, d)));
    to_multiset_len(b.filter(in_bucket(f, d)));
}

/// What holds of every element of a sequence holds of every element of a
/// rearrangement of it.
pub proof fn lemma_perm_all<T>(a: Seq<T>, b: Seq<T>, p: spec_fn(T) -> bool)
    requires
        a.to_multiset() == b.to_multiset(),
        forall|i: int| #![trigger a[i]] 0 <= i < a.len() ==> p(a[i]),
    ensures
        forall|j: int| #![trigger b[j]] 0 <= j < b.len() ==> p(b[j]),
        a.len() == b.len(),
{
    to_multiset_len(a);
    to_multiset_len(b);
    assert forall|j: int| #![trigger b[j]] 0 <= j < b.len() implies p(b[j]) by {
        assert(b.contains(b[j]));
        to_multiset_contains(b, b[j]);
        to_multiset_contains(a, b[j]);
        let i = choose|i: int| 0 <= i < a.len() && a[i] == b[j];
        assert(p(a[i]));
    }
}

/// A rearrangement falls into the same range of buckets.
pub proof fn lemma_perm_in_range<T>(a: Seq<T>, b: Seq<T>, f: spec_fn(T) -> int, k: int)
    requires
        a.to_multiset() == b.to_multiset(),
        in_range(a, f, k),
    ensures
        in_range(b, f, k),
{
    lemma_perm_all(a, b, below(f, k));
}

/// A rearrangement has the same histogram.
pub proof fn lemma_perm_histogram<T>(a: Seq<T>, b: Seq<T>, f: spec_fn(T) -> int, h: Seq<usize>)
    requires
        a.to_multiset() == b.to_multiset(),
        is_histogram(h, a, f),
    ensures
        is_histogram(h, b, f),
{
    assert forall|d: int| 0 <= d < h.len() implies #[trigger] h[d] as nat == count(b, f, d) by {
        lemma_count_perm(a, b, f, d);
    }
}

/// The starts of the buckets do not decrease, and none is negative.
pub proof fn lemma_psum_monotone(h: Seq<usize>, a: int, b: int)
    requires
        a <= b,
    ensures
        psum(h, a) <= psum(h, b),
        0 <= psum(h, a),
    decreases b - a, b,
{
    if a < b {
        lemma_psum_monotone(h, a, b - 1);
    } else if a > 0 {
        lemma_psum_monotone(h, a - 1, a - 1);
    }
}

/// Every position below the end of bucket `k - 1` lies in one bucket.
pub proof fn lemma_find_bucket(h: Seq<usize>, k: int, i: int) -> (d: int)
    requires
        0 <= i < psum(h, k),
    ensures
        0 <= d < k,
        psum(h, d) <= i < psum(h, d + 1),
    decreases k,
{
    if k <= 0 {
        0
    } else if i >= psum(h, k - 1) {
        k - 1
    } else {
        lemma_find_bucket(h, k - 1, i)
    }
}

/// The buckets' ranges of positions do not overlap.
pub proof fn lemma_bucket_unique(h: Seq<usize>, d1: int, d2: int, i: int)
    requires
        psum(h, d1) <= i < psum(h, d1 + 1),
        psum(h, d2) <= i < psum(h, d2 + 1),
    ensures
        d1 == d2,
{
    if d1 < d2 {
        lemma_psum_monotone(h, d1 + 1, d2);
    } else if d2 < d1 {
        lemma_psum_monotone(h, d2 + 1, d1);
    }
}

/// The buckets `0..k` one after the other hold the elements that fall into

/// them, and no others.
pub proof fn lemma_bucket_concat_multiset<T>(s: Seq<T>, f: spec_fn(T) -> int, k: nat)
    ensures
        bucket_concat(s, f, k).to_multiset() == s.to_multiset().filter(below(f, k as int)),
    decreases k,
{
    broadcast use group_multiset_axioms;

    let lhs = bucket_concat(s, f, k).to_multiset();
    let m = s.to_multiset();
    let rhs = m.filter(below(f, k as int));
    if k == 0 {
        to_multiset_len(bucket_concat(s, f, k));
        lemma_multiset_empty_len(lhs);
        assert forall|v: T| lhs.count(v) == rhs.count(v) by {}
    } else {
        let a = bucket_concat(s, f, (k - 1) as nat);
        let b = s.filter(in_bucket(f, k - 1));
        lemma_bucket_concat_multiset(s, f, (k - 1) as nat);
        lemma_multiset_commutative(a, b);
        lemma_filter_multiset(s, in_bucket(f, k - 1));
        assert(lhs == a.to_multiset().add(b.to_multiset()));
        assert forall|v: T| lhs.count(v) == rhs.count(v) by {
            assert(a.to_multiset().count(v) == if below(f, k - 1)(v) {
                m.count(v)
            } else {
                0
            });
            assert(b.to_multiset().count(v) == if in_bucket(f, k - 1)(v) {
                m.count(v)
            } else {
                0
            });
        }
    }
    assert(lhs =~= rhs);
}

/// A stable distribution pass rearranges the sequence and loses nothing.
pub proof fn lemma_bucket_concat_perm<T>(s: Seq<T>, f: spec_fn(T) -> int, k: nat)
    requires
        in_range(s, f, k as int),
    ensures
        bucket_concat(s, f, k).to_multiset() == s.to_multiset(),
        bucket_concat(s, f, k).len() == s.len(),
{
    broadcast use group_multiset_axioms;

    lemma_bucket_concat_multiset(s, f, k);
    let m = s.to_multiset();
    let p = below(f, k as int);
    assert forall|v: T| m.filter(p).count(v) == m.count(v) by {
        if !p(v) {
            to_multiset_contains(s, v);
            if s.contains(v) {
                let i = choose|i: int| 0 <= i < s.len() && s[i] == v;
                assert(p(s[i]));
            }
        }
    }
    assert(m.filter(p) =~= m);
    to_multiset_len(s);
    to_multiset_len(bucket_concat(s, f, k));
}

/// The buckets `0..k` one after the other are as long as the histogram

/// says.
pub proof fn lemma_bucket_concat_len<T>(s: Seq<T>, f: spec_fn(T) -> int, h: Seq<usize>, k: nat)
    requires
        is_histogram(h, s, f),
        k <= h.len(),
    ensures
        bucket_concat(s, f, k).len() == psum(h, k as int),
    decreases k,
{
    if k > 0 {
        lemma_bucket_concat_len(s, f, h, (k - 1) as nat);
        assert(h[k - 1] as nat == count(s, f, k - 1));
    }
}

/// The histogram's entries add up to the length of the sequence.
pub proof fn lemma_psum_total<T>(s: Seq<T>, f: spec_fn(T) -> int, h: Seq<usize>)
    requires
        is_histogram(h, s, f),
        in_range(s, f, h.len() as int),
    ensures
        psum(h, h.len() as int) == s.len(),
{
    lemma_bucket_concat_len(s, f, h, h.len());
    lemma_bucket_concat_perm(s, f, h.len());
}

/// Where the `j`-th element of bucket `d` stands after a stable pass.
pub proof fn lemma_bucket_concat_index<T>(
    s: Seq<T>,
    f: spec_fn(T) -> int,
    h: Seq<usize>,
    k: nat,
    d: int,
    j: int,
)
    requires
        is_histogram(h, s, f),
        k <= h.len(),
        0 <= d < k,
        0 <= j < h[d],
    ensures
        psum(h, d) + j < bucket_concat(s, f, k).len(),
        bucket_concat(s, f, k)[psum(h, d) + j] == s.filter(in_bucket(f, d))[j],
    decreases k,
{
    lemma_bucket_concat_len(s, f, h, (k - 1) as nat);
    lemma_bucket_concat_len(s, f, h, k);
    assert(h[d] as nat == count(s, f, d));
    lemma_psum_monotone(h, d, d);
    if d == k - 1 {
    } else {
        lemma_bucket_concat_index(s, f, h, (k - 1) as nat, d, j);
    }
}

/// The buckets `0..k` one after the other hold elements of those buckets

/// only.
pub proof fn lemma_bucket_concat_below<T>(s: Seq<T>, f: spec_fn(T) -> int, k: nat)
    ensures
        in_range(bucket_concat(s, f, k), f, k as int),
    decreases k,
{
    if k > 0 {
        let a = bucket_concat(s, f, (k - 1) as nat);
        let b = s.filter(in_bucket(f, k - 1));
        lemma_bucket_concat_below(s, f, (k - 1) as nat);
        let r = bucket_concat(s, f, k);
        assert forall|i: int| #![trigger r[i]] 0 <= i < r.len() implies 0 <= f(r[i]) < k by {
            if i < a.len() {
                assert(r[i] == a[i]);
            } else {
                assert(r[i] == b[i - a.len()]);
                s.lemma_filter_pred(in_bucket(f, k - 1), i - a.len());
            }
        }
    }
}

/// A filter keeps the order of what it keeps.
pub proof fn lemma_filter_ordered<T>(s: Seq<T>, p: spec_fn(T) -> bool, g: spec_fn(T) -> int)
    requires
        ordered_by(s, g),
    ensures
        ordered_by(s.filter(p), g),
    decreases s.len(),
{
    reveal(Seq::filter);
    if s.len() > 0 {
        let t = s.drop_last();
        let x = s.last();
        assert(ordered_by(t, g)) by {
            assert forall|i: int, j: int| 0 <= i <= j < t.len() implies g(t[i]) <= g(t[j]) by {
                assert(t[i] == s[i] && t[j] == s[j]);
            }
        }
        lemma_filter_ordered(t, p, g);
        let ft = t.filter(p);
        let r = s.filter(p);
        assert forall|i: int, j: int| 0 <= i <= j < r.len() implies g(r[i]) <= g(r[j]) by {
            if j < ft.len() {
                assert(r[i] == ft[i] && r[j] == ft[j]);
            } else if i < ft.len() {
                assert(ft.contains(ft[i]));
                t.lemma_filter_contains_rev(p, ft[i]);
                let a = choose|a: int| 0 <= a < t.len() && t[a] == ft[i];
                assert(s[a] == t[a]);
                assert(g(s[a]) <= g(s[s.len() - 1]));
            }
        }
    }
}

/// A stable pass over a sequence ordered by `g` leaves it ordered by the
/// bucket first and by `g` within a bucket.
pub proof fn lemma_bucket_concat_ordered<T>(
    s: Seq<T>,
    f: spec_fn(T) -> int,
    g: spec_fn(T) -> int,
    k: nat,
)
    requires
        ordered_by(s, g),
    ensures
        lex_ordered(bucket_concat(s, f, k), f, g),
    decreases k,
{
    if k > 0 {
        let a = bucket_concat(s, f, (k - 1) as nat);
        let b = s.filter(in_bucket(f, k - 1));
        let r = bucket_concat(s, f, k);
        lemma_bucket_concat_ordered(s, f, g, (k - 1) as nat);
        lemma_bucket_concat_below(s, f, (k - 1) as nat);
        lemma_filter_ordered(s, in_bucket(f, k - 1), g);
        assert forall|i: int, j: int| 0 <= i <= j < r.len() implies f(r[i]) < f(r[j]) || (f(
            r[i],
        ) == f(r[j]) && g(r[i]) <= g(r[j])) by {
            if j < a.len() {
                assert(r[i] == a[i] && r[j] == a[j]);
            } else {
                assert(r[j] == b[j - a.len()]);
                s.lemma_filter_pred(in_bucket(f, k - 1), j - a.len());
                if i < a.len() {
                    assert(r[i] == a[i]);
                } else {
                    assert(r[i] == b[i - a.len()]);
                    s.lemma_filter_pred(in_bucket(f, k - 1), i - a.len());
                }
            }
        }
    }
}

/// If a whole range of positions holds elements of bucket `d`, and one more
/// such element stands outside it, the bucket counts more than the range.
pub proof fn lemma_count_room<T>(s: Seq<T>, f: spec_fn(T) -> int, d: int, a: int, b: int, p: int)
    requires
        0 <= a <= b <= s.len(),
        forall|k: int| #![trigger s[k]] a <= k < b ==> f(s[k]) == d,
        0 <= p < s.len(),
        !(a <= p < b),
        f(s[p]) == d,
    ensures
        count(s, f, d) >= b - a + 1,
{
    let left = s.subrange(0, a);
    let mid = s.subrange(a, b);
    let right = s.subrange(b, s.len() as int);
    assert(s =~= (left + mid) + right);
    lemma_count_add(left + mid, right, f, d);
    lemma_count_add(left, mid, f, d);
    assert forall|k: int| #![trigger mid[k]] 0 <= k < mid.len() implies f(mid[k]) == d by {
        assert(mid[k] == s[a + k]);
    }
    lemma_count_all(mid, f, d);
    if p < a {
        assert(left[p] == s[p]);
        lemma_count_pos(left, f, d, p);
    } else {
        assert(right[p - b] == s[p]);
        lemma_count_pos(right, f, d, p - b);
    }
}

/// Once every bucket but the last holds only its own elements, the whole
/// sequence is partitioned.
pub proof fn lemma_partition_complete<T>(s: Seq<T>, f: spec_fn(T) -> int, h: Seq<usize>)
    requires
        h.len() > 0,
        is_histogram(h, s, f),
        in_range(s, f, h.len() as int),
        forall|d: int, k: int|
            #![trigger psum(h, d), s[k]]
            0 <= d < h.len() - 1 && psum(h, d) <= k < psum(h, d + 1) ==> f(s[k]) == d,
    ensures
        partitioned(s, f, h),
{
    lemma_psum_total(s, f, h);
    let n = h.len() as int;
    assert forall|i: int| #![trigger s[i]] 0 <= i < s.len() implies psum(h, f(s[i])) <= i < psum(
        h,
        f(s[i]) + 1,
    ) by {
        let d = f(s[i]);
        let e = lemma_find_bucket(h, n, i);
        if e != d {
            if e < n - 1 {
                assert(psum(h, e) <= i < psum(h, e + 1));
                assert(f(s[i]) == e);
            } else {
                // `i` stands in the last bucket but belongs to `d`, whose
                // range is full of its own elements: one too many.
                lemma_psum_monotone(h, d, d + 1);
                lemma_psum_monotone(h, d + 1, n);
                if psum(h, d) <= i < psum(h, d + 1) {
                    lemma_bucket_unique(h, d, e, i);
                }
                assert forall|k: int| #![trigger s[k]] psum(h, d) <= k < psum(h, d + 1) implies f(
                    s[k],
                ) == d by {
                    assert(psum(h, d) <= k < psum(h, d + 1));
                }
                lemma_count_room(s, f, d, psum(h, d), psum(h, d + 1), i);
                assert(h[d] as nat == count(s, f, d));
            }
        }
    }
}

/// In a partitioned sequence each bucket's range holds the bucket's elements.
pub proof fn lemma_partitioned_bucket<T>(
    s: Seq<T>,
    f: spec_fn(T) -> int,
    h: Seq<usize>,
    d: int,
    i: int,
)
    requires
        partitioned(s, f, h),
        0 <= i < s.len(),
        psum(h, d) <= i < psum(h, d + 1),
    ensures
        f(s[i]) == d,
{
    lemma_bucket_unique(h, d, f(s[i]), i);
}

/// A partitioned sequence does not decrease under the bucket function.
pub proof fn lemma_partitioned_ordered<T>(s: Seq<T>, f: spec_fn(T) -> int, h: Seq<usize>)
    requires
        partitioned(s, f, h),
    ensures
        ordered_by(s, f),
{
    assert forall|i: int, j: int| 0 <= i <= j < s.len() implies f(s[i]) <= f(s[j]) by {
        if f(s[i]) > f(s[j]) {
            lemma_psum_monotone(h, f(s[j]) + 1, f(s[i]));
        }
    }
}

/// The histogram of a sequence, as a sequence of its own.
pub open spec fn histogram_of<T>(s: Seq<T>, f: spec_fn(T) -> int, k: nat) -> Seq<usize> {
    Seq::new(k, |d: int| count(s, f, d) as usize)
}

/// `histogram_of` is a histogram.
pub proof fn lemma_histogram_of<T>(s: Seq<T>, f: spec_fn(T) -> int, k: nat)
    requires
        s.len() <= usize::MAX,
    ensures
        is_histogram(histogram_of(s, f, k), s, f),
        histogram_of(s, f, k).len() == k,
{
    let h = histogram_of(s, f, k);
    assert forall|d: int| 0 <= d < h.len() implies #[trigger] h[d] as nat == count(s, f, d) by {
        lemma_count_le_len(s, f, d);
    }
}

/// A sequence has one histogram.
pub proof fn lemma_histogram_unique<T>(h: Seq<usize>, s: Seq<T>, f: spec_fn(T) -> int)
    requires
        is_histogram(h, s, f),
    ensures
        h == histogram_of(s, f, h.len()),
{
    let g = histogram_of(s, f, h.len());
    assert forall|d: int| 0 <= d < h.len() implies h[d] == g[d] by {
        assert(h[d] as nat == count(s, f, d));
    }
    assert(h =~= g);
}

/// A way to tell the bucket of an element, in code and in contracts.
pub trait Bucketer<T> {
    /// What must hold of the bucketer for `bucket` to be called.
    spec fn wf(&self) -> bool;

    /// Number of buckets.
    spec fn buckets(&self) -> int;

    /// The bucket of an element.
    spec fn spec_bucket(&self, x: T) -> int;

    fn size(&self) -> (k: usize)
        requires
            self.wf(),
            0 <= self.buckets() <= usize::MAX,
        ensures
            k == self.buckets(),
    ;

    fn bucket(&self, x: &T) -> (b: usize)
        requires
            self.wf(),
        ensures
            b == self.spec_bucket(*x),
            b < self.buckets(),
    ;

    /// Every bucket is one of `buckets()`.
    proof fn lemma_in_range(&self, x: T)
        requires
            self.wf(),
        ensures
            0 <= self.spec_bucket(x) < self.buckets(),
    ;
}

/// The bucket function of a bucketer.
pub open spec fn bucket_fn<T, B: Bucketer<T>>(by: B) -> spec_fn(T) -> int {
    |x: T| by.spec_bucket(x)
}

/// Two bucket functions that agree on every element count alike.
pub proof fn lemma_same_buckets_count<T>(
    s: Seq<T>,
    f: spec_fn(T) -> int,
    g: spec_fn(T) -> int,
    d: int,
)
    requires
        forall|x: T| #[trigger] f(x) == g(x),
    ensures
        count(s, f, d) == count(s, g, d),
        s.filter(in_bucket(f, d)) == s.filter(in_bucket(g, d)),
    decreases s.len(),
{
    reveal(Seq::filter);
    if s.len() > 0 {
        lemma_same_buckets_count(s.drop_last(), f, g, d);
        assert(f(s.last()) == g(s.last()));
    }
}

/// A histogram under one bucket function is one under any function that

/// agrees with it.
pub proof fn lemma_same_buckets_histogram<T>(
    h: Seq<usize>,
    s: Seq<T>,
    f: spec_fn(T) -> int,
    g: spec_fn(T) -> int,
)
    requires
        forall|x: T| #[trigger] f(x) == g(x),
        is_histogram(h, s, f),
    ensures
        is_histogram(h, s, g),
{
    assert forall|d: int| 0 <= d < h.len() implies #[trigger] h[d] as nat == count(s, g, d) by {
        lemma_same_buckets_count(s, f, g, d);
    }
}

/// A slice partitioned under one bucket function is so under any function

/// that agrees with it.
pub proof fn lemma_same_buckets_partitioned<T>(
    s: Seq<T>,
    f: spec_fn(T) -> int,
    g: spec_fn(T) -> int,
    h: Seq<usize>,
)
    requires
        forall|x: T| #[trigger] f(x) == g(x),
        partitioned(s, f, h),
    ensures
        partitioned(s, g, h),
{
    assert forall|i: int| #![trigger s[i]] 0 <= i < s.len() implies psum(h, g(s[i])) <= i < psum(
        h,
        g(s[i]) + 1,
    ) by {
        assert(f(s[i]) == g(s[i]));
    }
}

} // verus!
