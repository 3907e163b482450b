//! A stable merge sort of indices under the IEEE total order, and the order
//! statistics it yields.
use vstd::prelude::*;
use crate::order::{
    indices_where, is_permutation, lemma_count_through_permutation, lemma_indices_interval,
    lemma_indices_where_finite, lemma_total_lt_on_patterns, lemma_total_order, total_le, total_lt,
    total_lt_bits,
};
use vstd::set_lib::lemma_len_subset;

verus! {

/// Index `p` comes before index `q` in the stable total order of `v`: its
/// value is smaller, or the values are the same pattern and `p` is earlier.
pub open spec fn index_lt(v: Seq<u64>, p: int, q: int) -> bool {
    total_lt(v[p], v[q]) || (v[p] == v[q] && p < q)
}

/// `o` lists indices of `v` in strictly increasing stable order.
pub open spec fn stably_sorted(v: Seq<u64>, o: Seq<usize>) -> bool {
    forall|a: int, b: int|
        0 <= a < b < o.len() ==> #[trigger] index_lt(v, o[a] as int, o[b] as int)
}

pub proof fn lemma_index_lt(v: Seq<u64>, p: int, q: int, r: int)
    ensures
        !index_lt(v, p, p),
        index_lt(v, p, q) ==> !index_lt(v, q, p),
        p != q ==> index_lt(v, p, q) || index_lt(v, q, p),
        index_lt(v, p, q) && index_lt(v, q, r) ==> index_lt(v, p, r),
        index_lt(v, p, q) ==> total_le(v[p], v[q]),
{
    lemma_total_order(v[p], v[q], v[r]);
}

fn index_lt_exec(v: &[u64], p: usize, q: usize) -> (r: bool)
    requires
        p < v.len(),
        q < v.len(),
    ensures
        r == index_lt(v@, p as int, q as int),
{
    let a = v[p];
    let b = v[q];
    total_lt_bits(a, b) || (a == b && p < q)
}

/// Merges two stably sorted runs, one of the indices `lo..mid` and one of
/// the indices `mid..hi`.
fn merge_runs(
    v: &[u64],
    left: Vec<usize>,
    right: Vec<usize>,
    lo: usize,
    mid: usize,
    hi: usize,
) -> (out: Vec<usize>)
    requires
        lo <= mid <= hi <= v.len(),
        left.len() == mid - lo,
        right.len() == hi - mid,
        forall|k: int| 0 <= k < left.len() ==> lo <= #[trigger] left[k] < mid,
        forall|k: int| 0 <= k < right.len() ==> mid <= #[trigger] right[k] < hi,
        stably_sorted(v@, left@),
        stably_sorted(v@, right@),
    ensures
        out.len() == hi - lo,
        forall|k: int| 0 <= k < out.len() ==> lo <= #[trigger] out[k] < hi,
        stably_sorted(v@, out@),
{
    let mut out: Vec<usize> = Vec::new();
    let mut i: usize = 0;
    let mut j: usize = 0;
    while i < left.len() || j < right.len()
        invariant
            lo <= mid <= hi <= v.len(),
            left.len() == mid - lo,
            right.len() == hi - mid,
            forall|k: int| 0 <= k < left.len() ==> lo <= #[trigger] left[k] < mid,
            forall|k: int| 0 <= k < right.len() ==> mid <= #[trigger] right[k] < hi,
            stably_sorted(v@, left@),
            stably_sorted(v@, right@),
            i <= left.len(),
            j <= right.len(),
            out.len() == i + j,
            forall|k: int| 0 <= k < out.len() ==> lo <= #[trigger] out[k] < hi,
            stably_sorted(v@, out@),
            out.len() > 0 && i < left.len() ==> index_lt(
                v@,
                out@.last() as int,
                left[i as int] as int,
            ),
            out.len() > 0 && j < right.len() ==> index_lt(
                v@,
                out@.last() as int,
                right[j as int] as int,
            ),
        decreases left.len() + right.len() - i - j,
    {
        let take_left = if i < left.len() && j < right.len() {
            index_lt_exec(v, left[i], right[j])
        } else {
            i < left.len()
        };
        let ghost old_out = out@;
        let x = if take_left {
            left[i]
        } else {
            right[j]
        };
        proof {
            if !take_left && i < left.len() {
                lemma_index_lt(v@, left[i as int] as int, right[j as int] as int, 0);
            }
            assert(old_out.len() > 0 ==> index_lt(v@, old_out.last() as int, x as int));
            assert forall|k: int| 0 <= k < old_out.len() implies index_lt(
                v@,
                old_out[k] as int,
                x as int,
            ) by {
                if k < old_out.len() - 1 {
                    assert(index_lt(v@, old_out[k] as int, old_out[old_out.len() - 1] as int));
                    lemma_index_lt(
                        v@,
                        old_out[k] as int,
                        old_out[old_out.len() - 1] as int,
                        x as int,
                    );
                }
            }
        }
        out.push(x);
        if take_left {
            i = i + 1;
            proof {
                if i < left.len() {
                    assert(index_lt(v@, left[i - 1] as int, left[i as int] as int));
                }
            }
        } else {
            j = j + 1;
            proof {
                if j < right.len() {
                    assert(index_lt(v@, right[j - 1] as int, right[j as int] as int));
                }
            }
        }
        proof {
            assert forall|a: int, b: int| 0 <= a < b < out@.len() implies #[trigger] index_lt(
                v@,
                out@[a] as int,
                out@[b] as int,
            ) by {
                if b < old_out.len() {
                    assert(out@[a] == old_out[a] && out@[b] == old_out[b]);
                }
            }
        }
    }
    out
}

/// Stable merge sort of the indices `lo..hi` of `v`.
fn sort_run(v: &[u64], lo: usize, hi: usize) -> (r: Vec<usize>)
    requires
        lo <= hi <= v.len(),
    ensures
        r.len() == hi - lo,
        forall|k: int| 0 <= k < r.len() ==> lo <= #[trigger] r[k] < hi,
        stably_sorted(v@, r@),
    decreases hi - lo,
{
    if hi - lo <= 1 {
        let mut r: Vec<usize> = Vec::new();
        if lo < hi {
            r.push(lo);
        }
        r
    } else {
        let mid = lo + (hi - lo) / 2;
        let left = sort_run(v, lo, mid);
        let right = sort_run(v, mid, hi);
        merge_runs(v, left, right, lo, mid, hi)
    }
}

/// The indices of `values` in stable ascending IEEE total order: what a
/// stable sort of `0..n` by `f64::total_cmp` on the values gives.
pub fn stable_order(values: &[u64]) -> (o: Vec<usize>)
    ensures
        is_permutation(o@, values.len() as int),
        stably_sorted(values@, o@),
{
    let o = sort_run(values, 0, values.len());
    proof {
        assert forall|i: int, j: int| 0 <= i < j < o.len() implies #[trigger] o@[i]
            != #[trigger] o@[j] by {
            assert(index_lt(values@, o@[i] as int, o@[j] as int));
            lemma_index_lt(values@, o@[i] as int, o@[j] as int, 0);
        }
    }
    o
}

} // verus!

verus! {

/// How many entries of `v` lie strictly below `x` in the total order.
pub open spec fn count_below(v: Seq<u64>, x: u64) -> nat {
    indices_where(v.len() as int, |q: int| total_lt(v[q], x)).len()
}

/// How many entries of `v` lie at or below `x` in the total order.
pub open spec fn count_at_most(v: Seq<u64>, x: u64) -> nat {
    indices_where(v.len() as int, |q: int| total_le(v[q], x)).len()
}

/// `x` is the `k`-th smallest entry of `v` (0-based) in the total order:
/// fewer than `k + 1` entries lie below it and more than `k` lie at or below it.
pub open spec fn is_order_statistic(v: Seq<u64>, k: int, x: u64) -> bool {
    count_below(v, x) <= k < count_at_most(v, x)
}

/// The entry at position `k` of a stable order is the `k`-th order statistic.
pub proof fn lemma_sorted_position_is_order_statistic(v: Seq<u64>, o: Seq<usize>, k: int)
    requires
        is_permutation(o, v.len() as int),
        stably_sorted(v, o),
        0 <= k < v.len(),
    ensures
        is_order_statistic(v, k, v[o[k] as int]),
{
    let n = v.len() as int;
    let x = v[o[k] as int];
    let pred_lt = |q: int| total_lt(v[q], x);
    let thr_lt = |m: int| total_lt(v[o[m] as int], x);
    let pred_le = |q: int| total_le(v[q], x);
    let thr_le = |m: int| total_le(v[o[m] as int], x);
    let before = |m: int| m < k;
    let upto = |m: int| m <= k;
    lemma_count_through_permutation(o, n, pred_lt, thr_lt);
    lemma_count_through_permutation(o, n, pred_le, thr_le);
    lemma_indices_interval(n, 0, k, before);
    lemma_indices_interval(n, 0, k + 1, upto);
    lemma_indices_where_finite(n, thr_lt);
    lemma_indices_where_finite(n, thr_le);
    lemma_indices_where_finite(n, before);
    lemma_indices_where_finite(n, upto);
    assert(indices_where(n, thr_lt).subset_of(indices_where(n, before))) by {
        assert forall|m: int| indices_where(n, thr_lt).contains(m) implies indices_where(
            n,
            before,
        ).contains(m) by {
            lemma_total_order(v[o[m] as int], x, x);
            if m > k {
                assert(index_lt(v, o[k] as int, o[m] as int));
                lemma_index_lt(v, o[k] as int, o[m] as int, 0);
            }
        }
    }
    assert(indices_where(n, upto).subset_of(indices_where(n, thr_le))) by {
        assert forall|m: int| indices_where(n, upto).contains(m) implies indices_where(
            n,
            thr_le,
        ).contains(m) by {
            if m < k {
                assert(index_lt(v, o[m] as int, o[k] as int));
                lemma_index_lt(v, o[m] as int, o[k] as int, 0);
            }
        }
    }
    lemma_len_subset(indices_where(n, thr_lt), indices_where(n, before));
    lemma_len_subset(indices_where(n, upto), indices_where(n, thr_le));
    assert(indices_where(n, pred_lt) =~= indices_where(n, |q: int| total_lt(v[q], x)));
    assert(indices_where(n, pred_le) =~= indices_where(n, |q: int| total_le(v[q], x)));
}

/// The values of `values` in ascending IEEE total order, as a sort by
/// `f64::total_cmp` leaves them: position `k` holds the `k`-th order statistic.
pub fn sorted_by_total_order(values: &[u64]) -> (r: Vec<u64>)
    ensures
        r.len() == values.len(),
        forall|k: int| 0 <= k < r.len() ==> is_order_statistic(values@, k, #[trigger] r[k]),
{
    let o = stable_order(values);
    let mut r: Vec<u64> = Vec::new();
    let mut k: usize = 0;
    while k < o.len()
        invariant
            is_permutation(o@, values.len() as int),
            stably_sorted(values@, o@),
            k <= o.len(),
            r.len() == k,
            forall|m: int| 0 <= m < k ==> r[m] == values[o[m] as int],
        decreases o.len() - k,
    {
        r.push(values[o[k]]);
        k = k + 1;
    }
    proof {
        assert forall|m: int| 0 <= m < r.len() implies is_order_statistic(
            values@,
            m,
            #[trigger] r[m],
        ) by {
            lemma_sorted_position_is_order_statistic(values@, o@, m);
        }
    }
    r
}

/// An order statistic is unique: two values that are both the `k`-th
/// smallest entry of `v` are the same bit pattern.
pub proof fn lemma_order_statistic_unique(v: Seq<u64>, k: int, x: u64, y: u64)
    requires
        is_order_statistic(v, k, x),
        is_order_statistic(v, k, y),
    ensures
        x == y,
{
    if x != y {
        lemma_total_order(x, y, 0);
        if total_lt(x, y) {
            lemma_at_most_below(v, x, y);
        } else {
            lemma_at_most_below(v, y, x);
        }
    }
}

/// Order statistics ascend: the `j`-th smallest entry is at or below the
/// `k`-th smallest when `j <= k`.
pub proof fn lemma_order_statistics_ascend(v: Seq<u64>, j: int, k: int, x: u64, y: u64)
    requires
        j <= k,
        is_order_statistic(v, j, x),
        is_order_statistic(v, k, y),
    ensures
        total_le(x, y),
{
    lemma_total_order(x, y, 0);
    if total_lt(y, x) {
        lemma_at_most_below(v, y, x);
    }
}

/// Entries at or below `x` lie strictly below any `y` above `x`.
proof fn lemma_at_most_below(v: Seq<u64>, x: u64, y: u64)
    requires
        total_lt(x, y),
    ensures
        count_at_most(v, x) <= count_below(v, y),
{
    let n = v.len() as int;
    let le_x = |q: int| total_le(v[q], x);
    let lt_y = |q: int| total_lt(v[q], y);
    lemma_indices_where_finite(n, lt_y);
    assert(indices_where(n, le_x).subset_of(indices_where(n, lt_y))) by {
        assert forall|q: int| indices_where(n, le_x).contains(q) implies indices_where(
            n,
            lt_y,
        ).contains(q) by {
            lemma_total_order(v[q], x, y);
        }
    }
    lemma_len_subset(indices_where(n, le_x), indices_where(n, lt_y));
}

} // verus!

verus! {

/// Order statistics count values only: rearranging the entries of `v` by a
/// permutation leaves every order statistic as it was.
pub proof fn lemma_order_statistic_permutation(
    v: Seq<u64>,
    w: Seq<u64>,
    perm: Seq<usize>,
    k: int,
    x: u64,
)
    requires
        is_permutation(perm, v.len() as int),
        w.len() == v.len(),
        forall|t: int| 0 <= t < w.len() ==> #[trigger] w[t] == v[perm[t] as int],
    ensures
        is_order_statistic(w, k, x) <==> is_order_statistic(v, k, x),
{
    let n = v.len() as int;
    lemma_count_through_permutation(
        perm,
        n,
        |q: int| total_lt(v[q], x),
        |t: int| total_lt(w[t], x),
    );
    lemma_count_through_permutation(
        perm,
        n,
        |q: int| total_le(v[q], x),
        |t: int| total_le(w[t], x),
    );
    assert(indices_where(n, |q: int| total_lt(v[q], x)) =~= indices_where(
        v.len() as int,
        |q: int| total_lt(v[q], x),
    ));
    assert(indices_where(n, |t: int| total_lt(w[t], x)) =~= indices_where(
        w.len() as int,
        |q: int| total_lt(w[q], x),
    ));
    assert(indices_where(n, |q: int| total_le(v[q], x)) =~= indices_where(
        v.len() as int,
        |q: int| total_le(v[q], x),
    ));
    assert(indices_where(n, |t: int| total_le(w[t], x)) =~= indices_where(
        w.len() as int,
        |q: int| total_le(w[q], x),
    ));
}

/// The `k`-th order statistic of a rearrangement of `v` is the `k`-th order
/// statistic of `v`: a median or a trimmed selection does not depend on the
/// order of its input.
pub proof fn lemma_order_statistic_same_under_permutation(
    v: Seq<u64>,
    w: Seq<u64>,
    perm: Seq<usize>,
    k: int,
    x: u64,
    y: u64,
)
    requires
        is_permutation(perm, v.len() as int),
        w.len() == v.len(),
        forall|t: int| 0 <= t < w.len() ==> #[trigger] w[t] == v[perm[t] as int],
        is_order_statistic(v, k, x),
        is_order_statistic(w, k, y),
    ensures
        x == y,
{
    lemma_order_statistic_permutation(v, w, perm, k, y);
    lemma_order_statistic_unique(v, k, x, y);
}

} // verus!

verus! {

/// On values whose sign bit is clear (non-negative values, `+inf`), the
/// `k`-th order statistic is the `k`-th smallest bit pattern: fewer than
/// `k + 1` entries have a smaller pattern and more than `k` have one no
/// larger.
pub proof fn lemma_order_statistic_nonnegative(v: Seq<u64>, k: int, x: u64)
    requires
        forall|q: int| 0 <= q < v.len() ==> #[trigger] v[q] < 0x8000_0000_0000_0000u64,
        x < 0x8000_0000_0000_0000u64,
    ensures
        is_order_statistic(v, k, x) <==> (indices_where(v.len() as int, |q: int| v[q] < x).len()
            <= k < indices_where(v.len() as int, |q: int| v[q] <= x).len()),
{
    let n = v.len() as int;
    assert forall|q: int| 0 <= q < n implies (total_lt(v[q], x) <==> v[q] < x) by {
        lemma_total_lt_on_patterns(v[q], x);
    }
    assert(indices_where(n, |q: int| total_lt(v[q], x)) =~= indices_where(n, |q: int| v[q] < x));
    assert(indices_where(n, |q: int| total_le(v[q], x)) =~= indices_where(
        n,
        |q: int| v[q] <= x,
    ));
}

} // verus!
