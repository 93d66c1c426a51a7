//! Sorting integers: selection sort, bubble sort, merge sort and quicksort.

use vstd::prelude::*;
use vstd::multiset::Multiset;

verus! {

broadcast use vstd::seq_lib::group_to_multiset_ensures;

/// `s` is in non-decreasing order.
pub open spec fn sorted(s: Seq<i32>) -> bool {
    forall|i: int, j: int| 0 <= i < j < s.len() ==> s[i] <= s[j]
}

/// `s` is in non-decreasing order between `lo` and `hi`.
pub open spec fn sorted_between(s: Seq<i32>, lo: int, hi: int) -> bool {
    forall|i: int, j: int| lo <= i < j < hi ==> s[i] <= s[j]
}

/// Exchanges two elements.
pub fn swap<T: Copy>(v: &mut Vec<T>, i: usize, j: usize)
    requires
        i < old(v)@.len(),
        j < old(v)@.len(),
    ensures
        final(v)@ == old(v)@.update(i as int, old(v)@[j as int]).update(j as int, old(v)@[i as int]),
        final(v)@.to_multiset() == old(v)@.to_multiset(),
{
    let a = v[i];
    let b = v[j];
    let ghost s = v@;
    v.set(i, b);
    v.set(j, a);
    proof {
        lemma_swap_multiset(s, i as int, j as int);
    }
}

/// Exchanging two elements keeps the multiset.
pub proof fn lemma_swap_multiset<T>(s: Seq<T>, i: int, j: int)
    requires
        0 <= i < s.len(),
        0 <= j < s.len(),
    ensures
        s.update(i, s[j]).update(j, s[i]).to_multiset() == s.to_multiset(),
{
    broadcast use vstd::multiset::group_multiset_properties;

    let a = s[i];
    let b = s[j];
    let s1 = s.update(i, b);
    vstd::seq_lib::to_multiset_update(s, i, b);
    vstd::seq_lib::to_multiset_update(s1, j, a);
    vstd::seq_lib::to_multiset_contains(s, a);
    vstd::seq_lib::to_multiset_contains(s1, b);
    assert(s1[i] == b);
    assert(s.to_multiset().count(a) > 0);
    assert(s1.to_multiset().count(b) > 0);
    assert(s1.update(j, a).to_multiset() =~= s.to_multiset());
}

/// Sorts by repeatedly moving the smallest remaining element forward.
pub fn selection_sort(v: &mut Vec<i32>)
    ensures
        sorted(final(v)@),
        final(v)@.to_multiset() == old(v)@.to_multiset(),
{
    let n = v.len();
    let mut i: usize = 0;
    while i < n
        invariant
            n == v@.len(),
            i <= n,
            v@.to_multiset() == old(v)@.to_multiset(),
            sorted_between(v@, 0, i as int),
            forall|a: int, b: int| 0 <= a < i <= b < n ==> v@[a] <= v@[b],
        decreases n - i,
    {
        let mut min = i;
        let mut j = i;
        while j < n
            invariant
                n == v@.len(),
                i <= min < n,
                i <= min <= j <= n,
                forall|k: int| i <= k < j ==> v@[min as int] <= v@[k],
            decreases n - j,
        {
            if v[j] < v[min] {
                min = j;
            }
            j = j + 1;
        }
        swap(v, i, min);
        i = i + 1;
    }
}


/// `less` is a strict weak order: irreflexive, transitive, and its
/// incomparability is transitive too.
pub open spec fn strict_weak_order<T>(less: spec_fn(T, T) -> bool) -> bool {
    &&& forall|x: T| !#[trigger] less(x, x)
    &&& forall|x: T, y: T, z: T| #[trigger] less(x, y) && #[trigger] less(y, z) ==> less(x, z)
    &&& forall|x: T, y: T, z: T| !#[trigger] less(x, y) && !#[trigger] less(y, z) ==> !less(x, z)
}

/// No element between `lo` and `hi` is less than one before it.
pub open spec fn sorted_by<T>(s: Seq<T>, less: spec_fn(T, T) -> bool, lo: int, hi: int) -> bool {
    forall|i: int, j: int| lo <= i < j < hi ==> !less(s[j], s[i])
}

/// The multiset of the elements from `lo` up to, not including, `hi`.
pub open spec fn range_ms<T>(s: Seq<T>, lo: int, hi: int) -> Multiset<T> {
    s.subrange(lo, hi).to_multiset()
}

/// Exchanging two elements of a range keeps the range's multiset.
proof fn lemma_swap_in_range<T>(s: Seq<T>, i: int, j: int, lo: int, hi: int)
    requires
        0 <= lo <= i < hi <= s.len(),
        lo <= j < hi,
    ensures
        range_ms(s.update(i, s[j]).update(j, s[i]), lo, hi) == range_ms(s, lo, hi),
{
    let sub = s.subrange(lo, hi);
    assert(s.update(i, s[j]).update(j, s[i]).subrange(lo, hi) =~= sub.update(i - lo, sub[j - lo]).update(j - lo, sub[i - lo]));
    lemma_swap_multiset(sub, i - lo, j - lo);
}

/// A property of every element holds of every element of a sequence with
/// the same multiset.
proof fn lemma_all_by_multiset<T>(a: Seq<T>, b: Seq<T>, p: spec_fn(T) -> bool)
    requires
        a.to_multiset() == b.to_multiset(),
        forall|k: int| 0 <= k < a.len() ==> #[trigger] p(a[k]),
    ensures
        forall|k: int| 0 <= k < b.len() ==> #[trigger] p(b[k]),
{
    assert forall|k: int| 0 <= k < b.len() implies #[trigger] p(b[k]) by {
        vstd::seq_lib::to_multiset_contains(b, b[k]);
        vstd::seq_lib::to_multiset_contains(a, b[k]);
        assert(b.contains(b[k]));
        let t = choose|t: int| 0 <= t < a.len() && a[t] == b[k];
        assert(p(a[t]));
    }
}

/// Moves the median of the first, middle and last elements of the range to
/// its end, to serve as pivot.
fn position_pivot<T: Copy, F: Fn(T, T) -> bool>(array: &mut Vec<T>, lo: usize, hi: usize, is_smaller: &F)
    requires
        lo + 2 <= hi <= old(array)@.len(),
        forall|a: T, b: T| is_smaller.requires((a, b)),
    ensures
        final(array)@.len() == old(array)@.len(),
        forall|k: int| 0 <= k < old(array)@.len() && !(lo <= k < hi) ==> #[trigger] final(array)@[k] == old(array)@[k],
        range_ms(final(array)@, lo as int, hi as int) == range_ms(old(array)@, lo as int, hi as int),
{
    let length = hi - lo;
    let mid = lo + length / 2;
    let last = hi - 1;
    let pivot_position = if is_smaller(array[mid], array[lo]) != is_smaller(array[last], array[lo]) {
        lo
    } else if is_smaller(array[lo], array[mid]) != is_smaller(array[last], array[mid]) {
        mid
    } else {
        last
    };
    let ghost s = array@;
    swap(array, pivot_position, last);
    proof {
        lemma_swap_in_range(s, pivot_position as int, last as int, lo as int, hi as int);
    }
}

/// Partitions a range around a pivot; gives the pivot's place counted from
/// `lo`, with nothing before it that the pivot is less than, and nothing
/// after it less than the pivot.
fn quicksort_partition<T: Copy, F: Fn(T, T) -> bool>(
    array: &mut Vec<T>,
    lo: usize,
    hi: usize,
    is_smaller: &F,
    Ghost(less): Ghost<spec_fn(T, T) -> bool>,
) -> (r: usize)
    requires
        lo + 2 <= hi <= old(array)@.len(),
        forall|a: T, b: T| is_smaller.requires((a, b)),
        forall|a: T, b: T, r: bool| is_smaller.ensures((a, b), r) ==> r == less(a, b),
        strict_weak_order(less),
    ensures
        final(array)@.len() == old(array)@.len(),
        lo + r < hi,
        forall|k: int| 0 <= k < old(array)@.len() && !(lo <= k < hi) ==> #[trigger] final(array)@[k] == old(array)@[k],
        range_ms(final(array)@, lo as int, hi as int) == range_ms(old(array)@, lo as int, hi as int),
        forall|k: int| lo <= k < lo + r ==> !less(final(array)@[lo + r], #[trigger] final(array)@[k]),
        forall|k: int| lo + r < k < hi ==> !less(#[trigger] final(array)@[k], final(array)@[lo + r]),
{
    let length = hi - lo;
    if length == 2 {
        if is_smaller(array[lo + 1], array[lo]) {
            let ghost s = array@;
            swap(array, lo, lo + 1);
            proof {
                lemma_swap_in_range(s, lo as int, lo + 1, lo as int, hi as int);
                assert(less(s[lo + 1], s[lo as int]));
                if less(s[lo as int], s[lo + 1]) {
                    assert(less(s[lo as int], s[lo as int]));
                }
            }
        }
        return 1;
    }
    position_pivot(array, lo, hi, is_smaller);
    let ghost start = array@;
    let last = hi - 1;
    let pivot = array[last];
    let mut pivot_position: usize = 0;
    let mut i: usize = 0;
    while i < length - 1
        invariant
            hi == lo + length,
            last == hi - 1,
            length >= 3,
            hi <= array@.len(),
            array@.len() == start.len(),
            pivot_position <= i <= length - 1,
            array@[last as int] == pivot,
            forall|a: T, b: T| is_smaller.requires((a, b)),
            forall|a: T, b: T, r: bool| is_smaller.ensures((a, b), r) ==> r == less(a, b),
            forall|k: int| 0 <= k < start.len() && !(lo <= k < hi) ==> #[trigger] array@[k] == start[k],
            range_ms(array@, lo as int, hi as int) == range_ms(start, lo as int, hi as int),
            forall|k: int| lo <= k < lo + pivot_position ==> less(#[trigger] array@[k], pivot),
            forall|k: int| lo + pivot_position <= k < lo + i ==> !less(#[trigger] array@[k], pivot),
        decreases length - 1 - i,
    {
        if is_smaller(array[lo + i], pivot) {
            let ghost s = array@;
            swap(array, lo + i, lo + pivot_position);
            proof {
                lemma_swap_in_range(s, (lo + i) as int, (lo + pivot_position) as int, lo as int, hi as int);
            }
            pivot_position = pivot_position + 1;
        }
        i = i + 1;
    }
    let ghost s = array@;
    swap(array, lo + pivot_position, last);
    proof {
        lemma_swap_in_range(s, (lo + pivot_position) as int, last as int, lo as int, hi as int);
        assert forall|k: int| lo <= k < lo + pivot_position implies !less(array@[lo + pivot_position], #[trigger] array@[k]) by {
            assert(less(s[k], pivot));
            if less(pivot, s[k]) {
                assert(less(pivot, pivot));
            }
        }
    }
    pivot_position
}

/// Sorts the range from `lo` up to, not including, `hi` with quicksort.
fn quicksort_range<T: Copy, F: Fn(T, T) -> bool>(
    array: &mut Vec<T>,
    lo: usize,
    hi: usize,
    is_smaller: &F,
    Ghost(less): Ghost<spec_fn(T, T) -> bool>,
)
    requires
        lo <= hi <= old(array)@.len(),
        forall|a: T, b: T| is_smaller.requires((a, b)),
        forall|a: T, b: T, r: bool| is_smaller.ensures((a, b), r) ==> r == less(a, b),
        strict_weak_order(less),
    ensures
        final(array)@.len() == old(array)@.len(),
        sorted_by(final(array)@, less, lo as int, hi as int),
        forall|k: int| 0 <= k < old(array)@.len() && !(lo <= k < hi) ==> #[trigger] final(array)@[k] == old(array)@[k],
        range_ms(final(array)@, lo as int, hi as int) == range_ms(old(array)@, lo as int, hi as int),
    decreases hi - lo,
{
    if hi - lo > 1 {
        let p = quicksort_partition(array, lo, hi, is_smaller, Ghost(less));
        let mid = lo + p;
        let ghost s1 = array@;
        let pv = array[mid];
        quicksort_range(array, lo, mid, is_smaller, Ghost(less));
        let ghost s2 = array@;
        quicksort_range(array, mid + 1, hi, is_smaller, Ghost(less));
        let ghost s3 = array@;
        proof {
            broadcast use vstd::seq_lib::lemma_multiset_commutative;

            assert(s2[mid as int] == pv);
            assert(s3[mid as int] == pv);
            let below = |x: T| !less(pv, x);
            let above = |x: T| !less(x, pv);
            assert forall|k: int| 0 <= k < s1.subrange(lo as int, mid as int).len() implies #[trigger] below(
                s1.subrange(lo as int, mid as int)[k],
            ) by {
                assert(s1.subrange(lo as int, mid as int)[k] == s1[lo + k]);
            }
            lemma_all_by_multiset(s1.subrange(lo as int, mid as int), s2.subrange(lo as int, mid as int), below);
            assert forall|k: int| 0 <= k < s2.subrange(mid + 1, hi as int).len() implies #[trigger] above(
                s2.subrange(mid + 1, hi as int)[k],
            ) by {
                assert(s2.subrange(mid + 1, hi as int)[k] == s2[mid + 1 + k]);
                assert(s2[mid + 1 + k] == s1[mid + 1 + k]);
            }
            lemma_all_by_multiset(s2.subrange(mid + 1, hi as int), s3.subrange(mid + 1, hi as int), above);
            assert forall|k: int| lo <= k < mid implies !less(pv, #[trigger] s3[k]) by {
                assert(s3[k] == s2[k]);
                assert(s2.subrange(lo as int, mid as int)[k - lo] == s2[k]);
                assert(below(s2.subrange(lo as int, mid as int)[k - lo]));
            }
            assert forall|k: int| mid < k < hi implies !less(#[trigger] s3[k], pv) by {
                assert(s3.subrange(mid + 1, hi as int)[k - mid - 1] == s3[k]);
                assert(above(s3.subrange(mid + 1, hi as int)[k - mid - 1]));
            }
            assert(sorted_by(s3, less, lo as int, hi as int)) by {
                assert forall|i: int, j: int| lo <= i < j < hi implies !less(s3[j], s3[i]) by {
                    if j < mid {
                        assert(s3[i] == s2[i] && s3[j] == s2[j]);
                    } else if i < mid && j > mid {
                        assert(!less(s3[j], pv));
                        assert(!less(pv, s3[i]));
                    }
                }
            }
            assert(s1.subrange(lo as int, hi as int) =~= s1.subrange(lo as int, mid as int) + seq![pv] + s1.subrange(mid + 1, hi as int));
            assert(s2.subrange(lo as int, hi as int) =~= s2.subrange(lo as int, mid as int) + seq![pv] + s2.subrange(mid + 1, hi as int));
            assert(s3.subrange(lo as int, hi as int) =~= s3.subrange(lo as int, mid as int) + seq![pv] + s3.subrange(mid + 1, hi as int));
            assert(s2.subrange(mid + 1, hi as int) =~= s1.subrange(mid + 1, hi as int));
            assert(s3.subrange(lo as int, mid as int) =~= s2.subrange(lo as int, mid as int));
        }
    }
}

/// Sorts with quicksort by the comparator `is_smaller`, which must compute a
/// strict weak order: afterwards no element is smaller than one before it.
pub fn quicksort_by<T: Copy, F: Fn(T, T) -> bool>(
    array: &mut Vec<T>,
    is_smaller: &F,
    Ghost(less): Ghost<spec_fn(T, T) -> bool>,
)
    requires
        forall|a: T, b: T| is_smaller.requires((a, b)),
        forall|a: T, b: T, r: bool| is_smaller.ensures((a, b), r) ==> r == less(a, b),
        strict_weak_order(less),
    ensures
        sorted_by(final(array)@, less, 0, final(array)@.len() as int),
        final(array)@.to_multiset() == old(array)@.to_multiset(),
{
    let n = array.len();
    quicksort_range(array, 0, n, is_smaller, Ghost(less));
    assert(array@.subrange(0, n as int) =~= array@);
    assert(old(array)@.subrange(0, n as int) =~= old(array)@);
}

/// The first number is smaller.
fn smaller(a: i32, b: i32) -> (r: bool)
    ensures
        r == (a < b),
{
    a < b
}

/// Sorts integers with quicksort, choosing each pivot as a median of three.
pub fn quicksort(array: &mut Vec<i32>)
    ensures
        sorted(final(array)@),
        final(array)@.to_multiset() == old(array)@.to_multiset(),
{
    let ghost less = |a: i32, b: i32| a < b;
    quicksort_by(array, &smaller, Ghost(less));
    assert(sorted(array@)) by {
        assert forall|i: int, j: int| 0 <= i < j < array@.len() implies array@[i] <= array@[j] by {
            assert(!less(array@[j], array@[i]));
        }
    }
}

/// Adjacent elements between `lo` and `hi` are in order.
pub open spec fn adjacent_sorted(s: Seq<i32>, lo: int, hi: int) -> bool {
    forall|k: int| lo <= k && k + 1 < hi ==> #[trigger] s[k] <= s[k + 1]
}

proof fn lemma_adjacent_sorted(s: Seq<i32>, lo: int, hi: int)
    requires
        adjacent_sorted(s, lo, hi),
        0 <= lo,
        hi <= s.len(),
    ensures
        sorted_between(s, lo, hi),
    decreases hi - lo,
{
    if hi - lo > 1 {
        lemma_adjacent_sorted(s, lo + 1, hi);
        assert forall|i: int, j: int| lo <= i < j < hi implies s[i] <= s[j] by {
            if i == lo && j > lo + 1 {
                assert(s[lo] <= s[lo + 1]);
            }
        }
    }
}

/// Sorts by sweeping the smallest remaining element down to its place,
/// stopping after a sweep that moves nothing.
pub fn bubble_sort(v: &mut Vec<i32>)
    ensures
        sorted(final(v)@),
        final(v)@.to_multiset() == old(v)@.to_multiset(),
{
    if v.len() == 0 {
        return;
    }
    let n = v.len() - 1;
    let mut end = false;
    let mut i: usize = 0;
    while i < n && !end
        invariant
            n + 1 == v@.len(),
            i <= n,
            v@.to_multiset() == old(v)@.to_multiset(),
            sorted_between(v@, 0, i as int),
            forall|a: int, b: int| 0 <= a < i <= b <= n ==> v@[a] <= v@[b],
            end ==> adjacent_sorted(v@, i as int, n + 1),
        decreases n - i, if end { 0int } else { 1int },
    {
        end = true;
        let mut j: usize = n;
        while j > i
            invariant
                n + 1 == v@.len(),
                i < n,
                i <= j <= n,
                v@.to_multiset() == old(v)@.to_multiset(),
                sorted_between(v@, 0, i as int),
                forall|a: int, b: int| 0 <= a < i <= b <= n ==> v@[a] <= v@[b],
                forall|k: int| j <= k <= n ==> v@[j as int] <= #[trigger] v@[k],
                end ==> adjacent_sorted(v@, j as int, n + 1),
            decreases j,
        {
            if v[j] < v[j - 1] {
                swap(v, j - 1, j);
                end = false;
            }
            j = j - 1;
        }
        i = i + 1;
        if end {
            i = i - 1;
        }
    }
    proof {
        if end {
            lemma_adjacent_sorted(v@, i as int, n + 1);
        }
    }
}

/// Sorts with merge sort: sorts each half, then merges them.
pub fn merge(sortable: &mut Vec<i32>)
    ensures
        final(sortable)@.len() == old(sortable)@.len(),
        sorted(final(sortable)@),
        final(sortable)@.to_multiset() == old(sortable)@.to_multiset(),
    decreases old(sortable)@.len(),
{
    broadcast use vstd::seq_lib::lemma_multiset_commutative;

    let length = sortable.len();
    if length <= 1 {
        return;
    }
    let mid = length / 2;
    let mut half1: Vec<i32> = Vec::new();
    let mut half2: Vec<i32> = Vec::new();
    let mut k: usize = 0;
    while k < length
        invariant
            length == sortable@.len(),
            mid <= length,
            k <= length,
            k <= mid ==> half1@ == sortable@.take(k as int) && half2@.len() == 0,
            k > mid ==> half1@ == sortable@.take(mid as int) && half2@ == sortable@.subrange(mid as int, k as int),
        decreases length - k,
    {
        if k < mid {
            half1.push(sortable[k]);
            assert(half1@ =~= sortable@.take(k + 1));
        } else {
            half2.push(sortable[k]);
            assert(half2@ =~= sortable@.subrange(mid as int, k + 1));
        }
        k = k + 1;
    }
    assert(sortable@ =~= half1@ + half2@);
    let ghost whole = sortable@.to_multiset();
    merge(&mut half1);
    merge(&mut half2);
    let (mut ptr1, mut ptr2): (usize, usize) = (0, 0);
    let mut min_ptr: usize = 0;
    while min_ptr < length
        invariant
            length == sortable@.len(),
            half1@.len() + half2@.len() == length,
            sorted(half1@),
            sorted(half2@),
            half1@.to_multiset().add(half2@.to_multiset()) == whole,
            min_ptr == ptr1 + ptr2,
            ptr1 <= half1@.len(),
            ptr2 <= half2@.len(),
            sortable@.take(min_ptr as int).to_multiset() == half1@.take(ptr1 as int).to_multiset().add(
                half2@.take(ptr2 as int).to_multiset(),
            ),
            sorted(sortable@.take(min_ptr as int)),
            forall|a: int, b: int| 0 <= a < min_ptr && ptr1 <= b < half1@.len() ==> sortable@[a] <= half1@[b],
            forall|a: int, b: int| 0 <= a < min_ptr && ptr2 <= b < half2@.len() ==> sortable@[a] <= half2@[b],
        decreases length - min_ptr,
    {
        let ghost before = sortable@;
        let take1 = if ptr1 >= half1.len() {
            false
        } else if ptr2 >= half2.len() {
            true
        } else {
            half1[ptr1] < half2[ptr2]
        };
        if take1 {
            sortable.set(min_ptr, half1[ptr1]);
            assert(half1@.take(ptr1 + 1) =~= half1@.take(ptr1 as int).push(half1@[ptr1 as int]));
            ptr1 = ptr1 + 1;
        } else {
            sortable.set(min_ptr, half2[ptr2]);
            assert(half2@.take(ptr2 + 1) =~= half2@.take(ptr2 as int).push(half2@[ptr2 as int]));
            ptr2 = ptr2 + 1;
        }
        assert(sortable@.take(min_ptr + 1) =~= before.take(min_ptr as int).push(sortable@[min_ptr as int]));
        proof {
            broadcast use vstd::multiset::group_multiset_properties;

            assert forall|a: int, b: int| 0 <= a < min_ptr + 1 && ptr1 <= b < half1@.len() implies sortable@[a] <= half1@[b] by {
                if a < min_ptr {
                    assert(sortable@[a] == before[a]);
                }
            }
            assert forall|a: int, b: int| 0 <= a < min_ptr + 1 && ptr2 <= b < half2@.len() implies sortable@[a] <= half2@[b] by {
                if a < min_ptr {
                    assert(sortable@[a] == before[a]);
                }
            }
            let t = sortable@.take(min_ptr + 1);
            assert forall|a: int, b: int| 0 <= a < b < t.len() implies t[a] <= t[b] by {
                if b < min_ptr {
                    assert(before.take(min_ptr as int)[a] == t[a]);
                    assert(before.take(min_ptr as int)[b] == t[b]);
                } else {
                    assert(before[a] == t[a]);
                }
            }
            assert(t.to_multiset() =~= half1@.take(ptr1 as int).to_multiset().add(half2@.take(ptr2 as int).to_multiset()));
        }
        min_ptr = min_ptr + 1;
    }
    assert(sortable@.take(length as int) =~= sortable@);
    assert(half1@.take(ptr1 as int) =~= half1@);
    assert(half2@.take(ptr2 as int) =~= half2@);
}

/// Sorts with merge sort.
pub fn merge_sort(v: &mut Vec<i32>)
    ensures
        sorted(final(v)@),
        final(v)@.to_multiset() == old(v)@.to_multiset(),
{
    merge(v);
}


/// Integer sequences that sort themselves in place.
pub trait Sortable {
    /// The elements, in order.
    spec fn items(&self) -> Seq<i32>;

    /// Sorts by selection.
    fn selection_sort(&mut self)
        ensures
            sorted(final(self).items()),
            final(self).items().to_multiset() == old(self).items().to_multiset(),
    ;

    /// Sorts by bubbling.
    fn bubble_sort(&mut self)
        ensures
            sorted(final(self).items()),
            final(self).items().to_multiset() == old(self).items().to_multiset(),
    ;

    /// Sorts by merging.
    fn merge_sort(&mut self)
        ensures
            sorted(final(self).items()),
            final(self).items().to_multiset() == old(self).items().to_multiset(),
    ;
}

impl Sortable for Vec<i32> {
    open spec fn items(&self) -> Seq<i32> {
        self@
    }

    fn selection_sort(&mut self) {
        selection_sort(self);
    }

    fn bubble_sort(&mut self) {
        bubble_sort(self);
    }

    fn merge_sort(&mut self) {
        merge_sort(self);
    }
}

} // verus!
