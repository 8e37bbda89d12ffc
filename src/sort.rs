//! Introsort on a slice of integers: quicksort that falls back to heapsort
//! when its recursion grows too deep, and to insertion sort on short ranges.
//!
//! Every helper works on the range `lo..hi` of the slice, leaves the rest
//! as it was, and keeps the multiset of the range's values.
use vstd::prelude::*;

verus! {

broadcast use vstd::seq_lib::group_to_multiset_ensures;

pub open spec fn sorted_between(s: Seq<u64>, lo: int, hi: int) -> bool {
    forall|i: int, j: int| lo <= i <= j < hi ==> s[i] <= s[j]
}

pub open spec fn is_sorted(s: Seq<u64>) -> bool {
    sorted_between(s, 0, s.len() as int)
}

/// `t` is `s` with only the range `lo..hi` rearranged.
pub open spec fn permutes_range(s: Seq<u64>, t: Seq<u64>, lo: int, hi: int) -> bool {
    &&& t.len() == s.len()
    &&& forall|k: int| 0 <= k < s.len() && !(lo <= k < hi) ==> t[k] == s[k]
    &&& t.subrange(lo, hi).to_multiset() == s.subrange(lo, hi).to_multiset()
}

proof fn lemma_swap_multiset(s: Seq<u64>, i: int, j: int)
    requires
        0 <= i < s.len(),
        0 <= j < s.len(),
    ensures
        s.update(i, s[j]).update(j, s[i]).to_multiset() == s.to_multiset(),
{
    let t = s.update(i, s[j]);
    vstd::seq_lib::to_multiset_update(s, i, s[j]);
    vstd::seq_lib::to_multiset_update(t, j, s[i]);
    if i == j {
        assert(t.update(j, s[i]) =~= s);
    } else {
        assert(t[j] == s[j]);
    }
    assert(s.update(i, s[j]).update(j, s[i]).to_multiset() =~= s.to_multiset());
}

proof fn lemma_permutes_trans(a: Seq<u64>, b: Seq<u64>, c: Seq<u64>, lo: int, hi: int)
    requires
        permutes_range(a, b, lo, hi),
        permutes_range(b, c, lo, hi),
    ensures
        permutes_range(a, c, lo, hi),
{
}

/// A permutation of a sub-range is a permutation of any range holding it.
proof fn lemma_permutes_widen(a: Seq<u64>, b: Seq<u64>, lo: int, hi: int, lo2: int, hi2: int)
    requires
        0 <= lo2 <= lo <= hi <= hi2 <= a.len(),
        permutes_range(a, b, lo, hi),
    ensures
        permutes_range(a, b, lo2, hi2),
{
    let x = a.subrange(lo2, hi2);
    let y = b.subrange(lo2, hi2);
    assert(x =~= a.subrange(lo2, lo) + a.subrange(lo, hi) + a.subrange(hi, hi2));
    assert(y =~= b.subrange(lo2, lo) + b.subrange(lo, hi) + b.subrange(hi, hi2));
    assert(a.subrange(lo2, lo) =~= b.subrange(lo2, lo));
    assert(a.subrange(hi, hi2) =~= b.subrange(hi, hi2));
    vstd::seq_lib::lemma_multiset_commutative(a.subrange(lo2, lo), a.subrange(lo, hi));
    vstd::seq_lib::lemma_multiset_commutative(
        a.subrange(lo2, lo) + a.subrange(lo, hi),
        a.subrange(hi, hi2),
    );
    vstd::seq_lib::lemma_multiset_commutative(b.subrange(lo2, lo), b.subrange(lo, hi));
    vstd::seq_lib::lemma_multiset_commutative(
        b.subrange(lo2, lo) + b.subrange(lo, hi),
        b.subrange(hi, hi2),
    );
}

/// A value of the range after a permutation was a value of it before.
proof fn lemma_permuted_value(a: Seq<u64>, b: Seq<u64>, lo: int, hi: int, k: int)
    requires
        0 <= lo <= k < hi <= a.len(),
        permutes_range(a, b, lo, hi),
    ensures
        exists|m: int| lo <= m < hi && a[m] == b[k],
{
    let x = b[k];
    assert(b.subrange(lo, hi)[k - lo] == x);
    assert(b.subrange(lo, hi).to_multiset().contains(x));
    assert(a.subrange(lo, hi).to_multiset().contains(x));
    assert(a.subrange(lo, hi).contains(x));
    let m = choose|m: int| 0 <= m < a.subrange(lo, hi).len() && a.subrange(lo, hi)[m] == x;
    assert(a[lo + m] == x);
}

fn swap(arr: &mut [u64], i: usize, j: usize, lo: Ghost<int>, hi: Ghost<int>)
    requires
        0 <= lo@ <= i < hi@ <= old(arr)@.len(),
        lo@ <= j < hi@,
    ensures
        final(arr)@ == old(arr)@.update(i as int, old(arr)@[j as int]).update(
            j as int,
            old(arr)@[i as int],
        ),
        permutes_range(old(arr)@, final(arr)@, lo@, hi@),
{
    let ghost s = arr@;
    let a = arr[i];
    let b = arr[j];
    arr[i] = b;
    arr[j] = a;
    proof {
        let l = lo@;
        let h = hi@;
        let t = arr@;
        assert(t.subrange(l, h) =~= s.subrange(l, h).update(i - l, s[j as int]).update(
            j - l,
            s[i as int],
        ));
        lemma_swap_multiset(s.subrange(l, h), i - l, j - l);
    }
}

/// Lomuto partition of `lo..hi` around its last value: returns where that
/// value ends up, with the values not above it before and the larger ones
/// after.
fn partition(arr: &mut [u64], lo: usize, hi: usize) -> (p: usize)
    requires
        lo < hi <= old(arr)@.len(),
    ensures
        lo <= p < hi,
        permutes_range(old(arr)@, final(arr)@, lo as int, hi as int),
        forall|k: int| lo <= k < p ==> final(arr)@[k] <= final(arr)@[p as int],
        forall|k: int| p < k < hi ==> final(arr)@[k] > final(arr)@[p as int],
{
    let ghost s0 = arr@;
    let last = hi - 1;
    let pivot = arr[last];
    let mut i = lo;
    let mut j = lo;
    while j < last
        invariant
            lo <= i <= j <= last < hi <= arr@.len(),
            arr@[last as int] == pivot,
            permutes_range(s0, arr@, lo as int, hi as int),
            forall|k: int| lo <= k < i ==> arr@[k] <= pivot,
            forall|k: int| i <= k < j ==> arr@[k] > pivot,
        decreases last - j,
    {
        if arr[j] <= pivot {
            let ghost before = arr@;
            swap(arr, i, j, Ghost(lo as int), Ghost(hi as int));
            proof {
                lemma_permutes_trans(s0, before, arr@, lo as int, hi as int);
            }
            i = i + 1;
        }
        j = j + 1;
    }
    let ghost before = arr@;
    swap(arr, i, last, Ghost(lo as int), Ghost(hi as int));
    proof {
        lemma_permutes_trans(s0, before, arr@, lo as int, hi as int);
    }
    i
}

/// Insertion sort of `lo..hi`.
fn insertion_sort(arr: &mut [u64], lo: usize, hi: usize)
    requires
        lo <= hi <= old(arr)@.len(),
    ensures
        permutes_range(old(arr)@, final(arr)@, lo as int, hi as int),
        sorted_between(final(arr)@, lo as int, hi as int),
{
    let ghost s0 = arr@;
    if hi - lo <= 1 {
        return;
    }
    let mut i = lo + 1;
    while i < hi
        invariant
            lo < i <= hi <= arr@.len(),
            permutes_range(s0, arr@, lo as int, hi as int),
            sorted_between(arr@, lo as int, i as int),
        decreases hi - i,
    {
        let mut j = i;
        while j > lo && arr[j - 1] > arr[j]
            invariant
                lo <= j <= i < hi <= arr@.len(),
                permutes_range(s0, arr@, lo as int, hi as int),
                sorted_between(arr@, lo as int, j as int),
                sorted_between(arr@, j as int, i + 1),
                forall|a: int, b: int| lo <= a < j < b <= i ==> arr@[a] <= arr@[b],
            decreases j,
        {
            let ghost before = arr@;
            swap(arr, j - 1, j, Ghost(lo as int), Ghost(hi as int));
            proof {
                lemma_permutes_trans(s0, before, arr@, lo as int, hi as int);
            }
            j = j - 1;
        }
        i = i + 1;
    }
}

/// Node `k` of the heap stored at `lo..lo + n` is not below its children.
pub open spec fn node_ok(s: Seq<u64>, lo: int, n: int, k: int) -> bool {
    &&& (2 * k + 1 < n ==> s[lo + 2 * k + 1] <= s[lo + k])
    &&& (2 * k + 2 < n ==> s[lo + 2 * k + 2] <= s[lo + k])
}

/// The nodes from `start` on, but `hole`, are not below their children.
pub open spec fn heap_from(s: Seq<u64>, lo: int, n: int, start: int, hole: int) -> bool {
    forall|k: int| start <= k < n && k != hole ==> #[trigger] node_ok(s, lo, n, k)
}

proof fn lemma_heap_root_max(s: Seq<u64>, lo: int, n: int, j: int)
    requires
        0 <= j < n,
        0 <= lo,
        lo + n <= s.len(),
        heap_from(s, lo, n, 0, -1),
    ensures
        s[lo + j] <= s[lo],
    decreases j,
{
    if j > 0 {
        let p = (j - 1) / 2;
        assert(node_ok(s, lo, n, p));
        assert(j == 2 * p + 1 || j == 2 * p + 2);
        lemma_heap_root_max(s, lo, n, p);
    }
}

/// Sifts the value at node `i` down the heap `lo..lo + n`.
fn heapify(arr: &mut [u64], lo: usize, n: usize, root: usize, start: Ghost<int>)
    requires
        lo + n <= old(arr)@.len(),
        0 <= start@ <= root < n,
        heap_from(old(arr)@, lo as int, n as int, start@, root as int),
        root > start@ ==> ({
            let p = (root - 1) / 2;
            &&& (2 * root + 1 < n ==> old(arr)@[lo + 2 * root + 1] <= old(arr)@[lo + p])
            &&& (2 * root + 2 < n ==> old(arr)@[lo + 2 * root + 2] <= old(arr)@[lo + p])
        }),
    ensures
        permutes_range(old(arr)@, final(arr)@, lo + root, lo + n),
        heap_from(final(arr)@, lo as int, n as int, start@, -1),
{
    let ghost s0 = arr@;
    let mut i = root;
    let len = arr.len();
    loop
        invariant
            s0 == old(arr)@,
            0 <= start@,
            len == arr@.len(),
            lo + n <= arr@.len(),
            start@ <= root <= i < n,
            permutes_range(s0, arr@, lo + root, lo + n),
            heap_from(arr@, lo as int, n as int, start@, i as int),
            i > start@ ==> ({
                let p = (i - 1) / 2;
                &&& (2 * i + 1 < n ==> arr@[lo + 2 * i + 1] <= arr@[lo + p])
                &&& (2 * i + 2 < n ==> arr@[lo + 2 * i + 2] <= arr@[lo + p])
            }),
            forall|k: int| 0 <= k < lo + root ==> arr@[k] == s0[k],
        decreases n - i,
    {
        let mut largest = i;
        if i < n / 2 {
            let left = 2 * i + 1;
            assert(left < n) by (nonlinear_arith)
                requires
                    i < n / 2,
                    left == 2 * i + 1,
            ;
            if arr[lo + left] > arr[lo + largest] {
                largest = left;
            }
        }
        if i < (n - 1) / 2 {
            let right = 2 * i + 2;
            assert(right < n) by (nonlinear_arith)
                requires
                    i < (n - 1) / 2,
                    right == 2 * i + 2,
            ;
            if arr[lo + right] > arr[lo + largest] {
                largest = right;
            }
        }
        if largest == i {
            assert(node_ok(arr@, lo as int, n as int, i as int));
            return;
        }
        let ghost before = arr@;
        proof {
            let c = largest as int;
            let ii = i as int;
            assert(c == 2 * ii + 1 || c == 2 * ii + 2);
            assert(before[lo + c] >= before[lo + ii]);
            assert(2 * ii + 1 < n ==> before[lo + 2 * ii + 1] <= before[lo + c]);
            assert(2 * ii + 2 < n ==> before[lo + 2 * ii + 2] <= before[lo + c]);
            assert((c - 1) / 2 == ii);
            assert(node_ok(before, lo as int, n as int, c));
        }
        swap(arr, lo + i, lo + largest, Ghost(lo + root), Ghost(lo + n));
        proof {
            lemma_permutes_trans(s0, before, arr@, lo + root, lo + n);
            let t = arr@;
            let c = largest as int;
            let ii = i as int;
            assert(t == before.update(lo + ii, before[lo + c]).update(lo + c, before[lo + ii]));
            assert(t[lo + ii] == before[lo + c]);
            assert(t[lo + c] == before[lo + ii]);
            assert(forall|m: int| 0 <= m < t.len() && m != lo + ii && m != lo + c ==> t[m] == before[m]);
            assert forall|k: int| start@ <= k < n && k != c implies #[trigger] node_ok(
                t,
                lo as int,
                n as int,
                k,
            ) by {
                if k == ii {
                    if 2 * k + 1 < n && 2 * k + 1 != c {
                        assert(t[lo + 2 * k + 1] == before[lo + 2 * k + 1]);
                    }
                    if 2 * k + 2 < n && 2 * k + 2 != c {
                        assert(t[lo + 2 * k + 2] == before[lo + 2 * k + 2]);
                    }
                } else if 2 * k + 1 == ii || 2 * k + 2 == ii {
                    assert(k == (ii - 1) / 2);
                    assert(ii > start@);
                    assert(node_ok(before, lo as int, n as int, k));
                    assert(0 <= lo + k < t.len());
                    assert(k < ii);
                    assert(lo + k != lo + c);
                    assert(t[lo + k] == before[lo + k]);
                    if 2 * k + 1 < n && 2 * k + 1 != ii {
                        assert(t[lo + 2 * k + 1] == before[lo + 2 * k + 1]);
                    }
                    if 2 * k + 2 < n && 2 * k + 2 != ii {
                        assert(t[lo + 2 * k + 2] == before[lo + 2 * k + 2]);
                    }
                } else {
                    assert(node_ok(before, lo as int, n as int, k));
                    assert(2 * k + 1 != c && 2 * k + 2 != c);
                }
            }
        }
        i = largest;
    }
}

/// Heapsort of `lo..hi`.
fn heapsort(arr: &mut [u64], lo: usize, hi: usize)
    requires
        lo <= hi <= old(arr)@.len(),
    ensures
        permutes_range(old(arr)@, final(arr)@, lo as int, hi as int),
        sorted_between(final(arr)@, lo as int, hi as int),
{
    let ghost s0 = arr@;
    let n = hi - lo;
    if n <= 1 {
        return;
    }
    let mut b = n / 2;
    while b > 0
        invariant
            lo + n == hi <= arr@.len(),
            n > 1,
            b <= n / 2,
            permutes_range(s0, arr@, lo as int, hi as int),
            heap_from(arr@, lo as int, n as int, b as int, -1),
        decreases b,
    {
        b = b - 1;
        let ghost before = arr@;
        proof {
            assert forall|k: int| b <= k < n && k != b implies #[trigger] node_ok(
                arr@,
                lo as int,
                n as int,
                k,
            ) by {
                assert(node_ok(before, lo as int, n as int, k));
            }
        }
        heapify(arr, lo, n, b, Ghost(b as int));
        proof {
            lemma_permutes_widen(before, arr@, lo + b, hi as int, lo as int, hi as int);
            lemma_permutes_trans(s0, before, arr@, lo as int, hi as int);
        }
    }
    let mut end = n - 1;
    while end > 0
        invariant
            lo + n == hi <= arr@.len(),
            end < n,
            permutes_range(s0, arr@, lo as int, hi as int),
            heap_from(arr@, lo as int, end + 1, 0, -1),
            sorted_between(arr@, lo + end + 1, hi as int),
            forall|a: int, c: int| lo <= a <= lo + end < c < hi ==> arr@[a] <= arr@[c],
        decreases end,
    {
        let ghost before = arr@;
        proof {
            assert forall|j: int| lo <= j <= lo + end implies before[j] <= before[lo as int] by {
                lemma_heap_root_max(before, lo as int, end + 1, j - lo);
            }
        }
        swap(arr, lo, lo + end, Ghost(lo as int), Ghost(hi as int));
        let ghost mid = arr@;
        proof {
            lemma_permutes_trans(s0, before, mid, lo as int, hi as int);
            assert forall|k: int| 0 < k < end implies #[trigger] node_ok(mid, lo as int, end as int, k)
                by {
                assert(node_ok(before, lo as int, end + 1, k));
            }
        }
        heapify(arr, lo, end, 0, Ghost(0));
        proof {
            let t = arr@;
            lemma_permutes_widen(mid, t, lo as int, lo + end, lo as int, hi as int);
            lemma_permutes_trans(s0, mid, t, lo as int, hi as int);
            assert forall|a: int, c: int| lo <= a < lo + end <= c < hi implies t[a] <= t[c] by {
                lemma_permuted_value(mid, t, lo as int, lo + end, a);
                let m = choose|m: int| lo <= m < lo + end && mid[m] == t[a];
                if c == lo + end {
                } else {
                }
            }
        }
        end = end - 1;
    }
}

/// The floor of the base-2 logarithm; 0 for 0 and 1.
pub open spec fn log2_floor(n: nat) -> nat
    decreases n,
{
    if n <= 1 {
        0
    } else {
        1 + log2_floor(n / 2)
    }
}

fn floor_log2(n: usize) -> (r: usize)
    ensures
        r == log2_floor(n as nat),
{
    let mut m = n;
    let mut r: usize = 0;
    while m > 1
        invariant
            log2_floor(n as nat) == r + log2_floor(m as nat),
            r + m <= n,
        decreases m,
    {
        m = m / 2;
        r = r + 1;
    }
    r
}

/// Sorts `lo..hi`: heapsort once `max_depth` is spent, insertion sort on at
/// most 16 values, otherwise a partition and a sort of each side.
fn introsort_range(arr: &mut [u64], lo: usize, hi: usize, max_depth: usize)
    requires
        lo <= hi <= old(arr)@.len(),
    ensures
        permutes_range(old(arr)@, final(arr)@, lo as int, hi as int),
        sorted_between(final(arr)@, lo as int, hi as int),
    decreases hi - lo,
{
    let ghost s0 = arr@;
    let n = hi - lo;
    if n <= 1 {
        return;
    }
    if max_depth == 0 {
        heapsort(arr, lo, hi);
        return;
    }
    if n <= 16 {
        insertion_sort(arr, lo, hi);
        return;
    }
    let p = partition(arr, lo, hi);
    let ghost a1 = arr@;
    introsort_range(arr, lo, p, max_depth - 1);
    let ghost a2 = arr@;
    introsort_range(arr, p + 1, hi, max_depth - 1);
    proof {
        let a3 = arr@;
        let l = lo as int;
        let h = hi as int;
        let q = p as int;
        lemma_permutes_widen(a1, a2, l, q, l, h);
        lemma_permutes_widen(a2, a3, q + 1, h, l, h);
        lemma_permutes_trans(s0, a1, a2, l, h);
        lemma_permutes_trans(s0, a2, a3, l, h);
        let pivot = a1[q];
        assert(a3[q] == pivot);
        assert forall|k: int| l <= k < q implies a3[k] <= pivot by {
            lemma_permuted_value(a1, a2, l, q, k);
        }
        assert forall|k: int| q < k < h implies a3[k] > pivot by {
            lemma_permuted_value(a2, a3, q + 1, h, k);
            let m = choose|m: int| q + 1 <= m < h && a2[m] == a3[k];
            assert(a2[m] == a1[m]);
        }
        assert(sorted_between(a3, l, h));
    }
}

/// Sorts the slice in place, in increasing order.
pub fn introsort(arr: &mut [u64])
    ensures
        is_sorted(final(arr)@),
        final(arr)@.to_multiset() == old(arr)@.to_multiset(),
{
    let n = arr.len();
    let r = floor_log2(n);
    let max_depth = if r <= usize::MAX / 2 {
        2 * r
    } else {
        usize::MAX
    };
    introsort_range(arr, 0, n, max_depth);
    assert(arr@.subrange(0, n as int) =~= arr@);
    assert(old(arr)@.subrange(0, n as int) =~= old(arr)@);
}

} // verus!
