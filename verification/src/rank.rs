//! Tie-averaged ranking of pooled values (SciPy `rankdata`, `method='average'`).
//!
//! The values are sorted stably by `f64::total_cmp`; every run of sorted
//! values that `==` calls equal is a tie class, and each member of a class
//! gets the average of the 1-based positions the class occupies. Ranks come
//! back in input order. A rank is a half-integer, so it is returned doubled.
use vstd::prelude::*;
use crate::order::{
    float_eq, float_eq_bits, indices_where, is_nan, is_permutation, lemma_count_through_permutation,
    lemma_float_eq, lemma_float_eq_on_patterns, lemma_indices_interval, lemma_indices_where_finite, lemma_permutation_onto,
    lemma_sum_agree, lemma_sum_constant_run, lemma_sum_through_permutation, lemma_total_order,
    reaches, sum_upto, total_lt,
};
use vstd::set_lib::{
    lemma_int_range, lemma_len_subset, lemma_set_disjoint_lens, lemma_set_empty_equivalency_len,
    set_int_range,
};
use crate::sort::{index_lt, lemma_index_lt, stable_order, stably_sorted};

verus! {

/// Entry `q` is tied with entry `p`: it is `p` itself, or `==` calls their
/// values equal. (A NaN is tied only with itself.)
pub open spec fn tied(v: Seq<u64>, q: int, p: int) -> bool {
    q == p || float_eq(v[q], v[p])
}

/// How many entries come before the tie class of `p` in the stable order.
pub open spec fn count_ranked_below(v: Seq<u64>, p: int) -> nat {
    indices_where(v.len() as int, |q: int| index_lt(v, q, p) && !tied(v, q, p)).len()
}

/// How many entries the tie class of `p` holds.
pub open spec fn tie_count(v: Seq<u64>, p: int) -> nat {
    indices_where(v.len() as int, |q: int| tied(v, q, p)).len()
}

/// Twice the tie-averaged rank of entry `p`. Its class occupies the 1-based
/// positions `b + 1 ..= b + t` of the stable order (`b` entries below it,
/// `t` in it), whose average is `b + (t + 1) / 2`.
pub open spec fn doubled_average_rank(v: Seq<u64>, p: int) -> nat {
    2 * count_ranked_below(v, p) + tie_count(v, p) + 1
}

/// The largest number of entries a slice of 8-byte values can hold on a
/// 64-bit target (`isize::MAX / 8`).
pub open spec fn max_u64_slice_len() -> int {
    0x0fff_ffff_ffff_ffff
}

proof fn lemma_tied(v: Seq<u64>, a: int, b: int, c: int)
    ensures
        tied(v, a, a),
        tied(v, a, b) ==> tied(v, b, a),
        tied(v, a, b) && tied(v, b, c) ==> tied(v, a, c),
{
    lemma_float_eq(v[a], v[b], v[c]);
    lemma_float_eq(v[b], v[a], v[c]);
    lemma_float_eq(v[a], v[c], v[b]);
}

/// When the positions `i..j` of a stable order hold exactly the tie class of
/// the entry at position `i`, every entry of that class is ranked by `i`, `j`.
proof fn lemma_class_rank(v: Seq<u64>, o: Seq<usize>, i: int, j: int, k: int)
    requires
        is_permutation(o, v.len() as int),
        stably_sorted(v, o),
        0 <= i <= k < j <= v.len(),
        forall|m: int|
            0 <= m < v.len() ==> (#[trigger] tied(v, o[m] as int, o[i] as int) <==> i <= m < j),
    ensures
        count_ranked_below(v, o[k] as int) == i,
        tie_count(v, o[k] as int) == j - i,
{
    let n = v.len() as int;
    let p = o[k] as int;
    let below = |q: int| index_lt(v, q, p) && !tied(v, q, p);
    let below_thr = |m: int| index_lt(v, o[m] as int, p) && !tied(v, o[m] as int, p);
    let class = |q: int| tied(v, q, p);
    let class_thr = |m: int| tied(v, o[m] as int, p);
    assert(tied(v, p, o[i] as int));
    assert forall|m: int| 0 <= m < n implies (tied(v, o[m] as int, p) <==> tied(
        v,
        o[m] as int,
        o[i] as int,
    )) by {
        lemma_tied(v, o[m] as int, p, o[i] as int);
        lemma_tied(v, o[m] as int, o[i] as int, p);
        lemma_tied(v, p, o[i] as int, 0);
    }
    assert forall|m: int| 0 <= m < n implies (#[trigger] below_thr(m) <==> 0 <= m < i) by {
        assert(tied(v, o[m] as int, o[i] as int) <==> i <= m < j);
        if m < k {
            assert(index_lt(v, o[m] as int, o[k] as int));
        } else if m > k {
            assert(index_lt(v, o[k] as int, o[m] as int));
            lemma_index_lt(v, o[k] as int, o[m] as int, 0);
        } else {
            lemma_index_lt(v, p, p, 0);
        }
    }
    assert forall|m: int| 0 <= m < n implies (#[trigger] class_thr(m) <==> i <= m < j) by {
        assert(tied(v, o[m] as int, o[i] as int) <==> i <= m < j);
    }
    lemma_indices_interval(n, 0, i, below_thr);
    lemma_indices_interval(n, i, j, class_thr);
    lemma_count_through_permutation(o, n, below, below_thr);
    lemma_count_through_permutation(o, n, class, class_thr);
    assert(indices_where(n, below) =~= indices_where(
        n,
        |q: int| index_lt(v, q, p) && !tied(v, q, p),
    ));
    assert(indices_where(n, class) =~= indices_where(n, |q: int| tied(v, q, p)));
}

/// Tie-averaged ranks of `values` (IEEE-754 bit patterns), in input order,
/// each doubled so that it is a whole number: entry `p` gets
/// `doubled_average_rank(values, p)`, twice the rank SciPy's `rankdata`
/// gives it. The ranks of `n` entries sum to `n (n + 1) / 2`, as the
/// positions `1..=n` they average do.
pub fn rankdata_average(values: &[u64]) -> (ranks: Vec<u64>)
    requires
        values.len() <= max_u64_slice_len(),
    ensures
        ranks.len() == values.len(),
        forall|p: int|
            0 <= p < values.len() ==> #[trigger] ranks[p] == doubled_average_rank(values@, p),
        sum_upto(values.len() as int, |p: int| ranks@[p] as int) == values.len() * (values.len()
            + 1),
{
    let n = values.len();
    let order = stable_order(values);
    let ghost v = values@;
    let mut ranks: Vec<u64> = Vec::new();
    let mut z: usize = 0;
    while z < n
        invariant
            z <= n,
            ranks.len() == z,
        decreases n - z,
    {
        ranks.push(0);
        z = z + 1;
    }
    let mut i: usize = 0;
    while i < n
        invariant
            n == values.len(),
            v == values@,
            n <= max_u64_slice_len(),
            is_permutation(order@, n as int),
            stably_sorted(v, order@),
            i <= n,
            ranks.len() == n,
            forall|k: int|
                0 <= k < i ==> #[trigger] ranks[order[k] as int] == doubled_average_rank(
                    v,
                    order[k] as int,
                ),
            forall|m1: int, m2: int|
                0 <= m1 < i <= m2 < n ==> !tied(v, order[m1] as int, order[m2] as int),
            sum_upto(i as int, |m: int| ranks@[order@[m] as int] as int) == i * (i + 1),
        decreases n - i,
    {
        let head = values[order[i]];
        let mut j: usize = i + 1;
        while j < n && float_eq_bits(values[order[j]], head)
            invariant
                n == values.len(),
                v == values@,
                is_permutation(order@, n as int),
                head == v[order[i as int] as int],
                i < j <= n,
                forall|m: int| i <= m < j ==> #[trigger] tied(v, order[m] as int, order[i as int] as int),
            decreases n - j,
        {
            j = j + 1;
        }
        proof {
            let oi = order[i as int] as int;
            assert forall|m: int| j <= m < n implies !#[trigger] tied(v, order[m] as int, oi) by {
                let om = order[m] as int;
                assert(order[i as int] != order[m]);
                if tied(v, om, oi) {
                    lemma_tied(v, om, oi, 0);
                    if m == j {
                        assert(!float_eq(v[om], head));
                    } else {
                        let oj = order[j as int] as int;
                        assert(index_lt(v, oi, oj));
                        assert(index_lt(v, oj, om));
                        lemma_index_lt(v, oi, oj, om);
                        lemma_index_lt(v, oj, om, oi);
                        lemma_float_eq(v[oi], v[oj], v[om]);
                        lemma_float_eq(v[oj], v[oi], v[om]);
                        assert(float_eq(v[oj], head));
                    }
                }
            }
            assert forall|m: int| 0 <= m < n implies (#[trigger] tied(
                v,
                order[m] as int,
                oi,
            ) <==> i <= m < j) by {
                if m < i {
                    assert(!tied(v, order[m] as int, order[i as int] as int));
                }
            }
        }
        let value: u64 = 2 * (i as u64) + ((j - i) as u64) + 1;
        let ghost ranks_before = ranks@;
        let mut k: usize = i;
        while k < j
            invariant
                n == values.len(),
                v == values@,
                is_permutation(order@, n as int),
                stably_sorted(v, order@),
                i <= k <= j <= n,
                ranks.len() == n,
                value == 2 * i + (j - i) + 1,
                forall|m: int|
                    0 <= m < n ==> (#[trigger] tied(v, order[m] as int, order[i as int] as int)
                        <==> i <= m < j),
                forall|m: int|
                    0 <= m < i ==> #[trigger] ranks[order[m] as int] == doubled_average_rank(
                        v,
                        order[m] as int,
                    ),
                forall|m: int| i <= m < k ==> #[trigger] ranks[order[m] as int] == value,
            decreases j - k,
        {
            let ghost before = ranks@;
            ranks.set(order[k], value);
            proof {
                assert forall|m: int| 0 <= m < k implies #[trigger] ranks[order[m] as int]
                    == before[order[m] as int] by {
                    assert(order[m] != order[k as int]);
                }
            }
            k = k + 1;
        }
        proof {
            assert forall|m: int| i <= m < j implies #[trigger] ranks[order[m] as int]
                == doubled_average_rank(v, order[m] as int) by {
                lemma_class_rank(v, order@, i as int, j as int, m);
            }
            let f_new = |m: int| ranks@[order@[m] as int] as int;
            let f_old = |m: int| ranks_before[order@[m] as int] as int;
            assert forall|m: int| 0 <= m < i implies #[trigger] f_new(m) == f_old(m) by {}
            lemma_sum_agree(i as int, f_new, f_old);
            assert forall|m: int| i <= m < j implies #[trigger] f_new(m) == value as int by {}
            lemma_sum_constant_run(i as int, j as int, f_new, value as int);
            assert(i * (i + 1) + (j - i) * value == j * (j + 1)) by (nonlinear_arith)
                requires
                    value == i + j + 1,
            ;
            assert forall|m1: int, m2: int| 0 <= m1 < j <= m2 < n implies !tied(
                v,
                order[m1] as int,
                order[m2] as int,
            ) by {
                if m1 >= i {
                    let o1 = order[m1] as int;
                    let o2 = order[m2] as int;
                    let oi = order[i as int] as int;
                    assert(tied(v, o1, oi));
                    assert(!tied(v, o2, oi));
                    lemma_tied(v, o2, o1, oi);
                    lemma_tied(v, o1, o2, 0);
                }
            }
        }
        i = j;
    }
    proof {
        let f = |p: int| ranks@[p] as int;
        lemma_sum_through_permutation(order@, n as int, f);
        lemma_sum_agree(
            n as int,
            |m: int| f(order@[m] as int),
            |m: int| ranks@[order@[m] as int] as int,
        );
        lemma_permutation_onto(order@, n as int);
        assert forall|p: int| 0 <= p < n implies #[trigger] ranks[p] == doubled_average_rank(
            v,
            p,
        ) by {
            assert(reaches(order@, p));
            let m = choose|m: int| 0 <= m < order@.len() && order@[m] == p;
            assert(ranks[order[m] as int] == doubled_average_rank(v, order[m] as int));
        }
    }
    ranks
}

} // verus!

verus! {

/// The tie class of `p` and the entries ranked below it are disjoint and
/// together hold at most all entries; the class holds `p` itself.
proof fn lemma_rank_parts(v: Seq<u64>, p: int)
    requires
        0 <= p < v.len(),
    ensures
        tie_count(v, p) >= 1,
        count_ranked_below(v, p) + tie_count(v, p) <= v.len(),
{
    let n = v.len() as int;
    let below = indices_where(n, |q: int| index_lt(v, q, p) && !tied(v, q, p));
    let class = indices_where(n, |q: int| tied(v, q, p));
    lemma_indices_where_finite(n, |q: int| index_lt(v, q, p) && !tied(v, q, p));
    lemma_indices_where_finite(n, |q: int| tied(v, q, p));
    lemma_int_range(0, n);
    assert(class.contains(p));
    lemma_set_empty_equivalency_len(class);
    assert(below.disjoint(class));
    lemma_set_disjoint_lens(below, class);
    lemma_len_subset(below + class, set_int_range(0, n));
}

/// Every doubled rank lies between 2 and `2 n`: each rank lies in `1 ..= n`.
pub proof fn lemma_rank_bounds(v: Seq<u64>, p: int)
    requires
        0 <= p < v.len(),
    ensures
        2 <= doubled_average_rank(v, p) <= 2 * v.len(),
{
    lemma_rank_parts(v, p);
}

/// Tied entries share one rank.
pub proof fn lemma_tied_share_rank(v: Seq<u64>, p: int, q: int)
    requires
        0 <= p < v.len(),
        0 <= q < v.len(),
        tied(v, q, p),
    ensures
        doubled_average_rank(v, q) == doubled_average_rank(v, p),
{
    let n = v.len() as int;
    assert forall|x: int| 0 <= x < n implies (tied(v, x, q) <==> tied(v, x, p)) by {
        lemma_tied(v, x, q, p);
        lemma_tied(v, x, p, q);
        lemma_tied(v, q, p, 0);
    }
    assert forall|x: int| 0 <= x < n && !tied(v, x, p) implies (index_lt(v, x, q)
        <==> index_lt(v, x, p)) by {
        lemma_tied(v, x, q, p);
        lemma_tied(v, q, p, 0);
        lemma_float_eq(v[x], v[q], v[p]);
        lemma_float_eq(v[q], v[p], v[x]);
        lemma_total_order(v[x], v[q], v[p]);
        lemma_total_order(v[x], v[p], v[q]);
    }
    assert(indices_where(n, |x: int| tied(v, x, q)) =~= indices_where(
        n,
        |x: int| tied(v, x, p),
    ));
    assert(indices_where(n, |x: int| index_lt(v, x, q) && !tied(v, x, q)) =~= indices_where(
        n,
        |x: int| index_lt(v, x, p) && !tied(v, x, p),
    ));
}

/// Ranks follow the stable order across tie classes: an entry that comes
/// before `p` and is not tied with it has a strictly smaller rank.
pub proof fn lemma_rank_increases(v: Seq<u64>, q: int, p: int)
    requires
        0 <= p < v.len(),
        0 <= q < v.len(),
        index_lt(v, q, p),
        !tied(v, q, p),
    ensures
        doubled_average_rank(v, q) < doubled_average_rank(v, p),
{
    let n = v.len() as int;
    let below_q = indices_where(n, |x: int| index_lt(v, x, q) && !tied(v, x, q));
    let class_q = indices_where(n, |x: int| tied(v, x, q));
    let below_p = indices_where(n, |x: int| index_lt(v, x, p) && !tied(v, x, p));
    lemma_indices_where_finite(n, |x: int| index_lt(v, x, q) && !tied(v, x, q));
    lemma_indices_where_finite(n, |x: int| tied(v, x, q));
    lemma_indices_where_finite(n, |x: int| index_lt(v, x, p) && !tied(v, x, p));
    lemma_index_lt(v, q, p, 0);
    lemma_total_order(v[q], v[p], 0);
    assert forall|x: int| #[trigger] below_q.contains(x) implies below_p.contains(x) by {
        lemma_index_lt(v, x, q, p);
        lemma_index_lt(v, p, q, x);
        lemma_float_eq(v[x], v[q], v[p]);
        lemma_float_eq(v[p], v[x], v[q]);
        lemma_tied(v, x, p, 0);
    }
    assert forall|x: int| #[trigger] class_q.contains(x) implies below_p.contains(x) by {
        lemma_tied(v, x, q, p);
        lemma_float_eq(v[x], v[q], v[p]);
        lemma_float_eq(v[q], v[x], v[p]);
        lemma_total_order(v[x], v[q], v[p]);
        lemma_index_lt(v, x, p, q);
    }
    assert(below_q.disjoint(class_q));
    lemma_set_disjoint_lens(below_q, class_q);
    assert((below_q + class_q).subset_of(below_p));
    lemma_len_subset(below_q + class_q, below_p);
    lemma_rank_parts(v, p);
    lemma_rank_parts(v, q);
}

} // verus!

verus! {

/// For an entry that is not NaN the rank depends on values alone: twice its
/// rank is twice the number of values below it (and not equal to it) plus the
/// number of values equal to it, plus one.
pub proof fn lemma_rank_counts_values(v: Seq<u64>, p: int)
    requires
        0 <= p < v.len(),
        !is_nan(v[p]),
    ensures
        doubled_average_rank(v, p) == 2 * indices_where(
            v.len() as int,
            |q: int| total_lt(v[q], v[p]) && !float_eq(v[q], v[p]),
        ).len() + indices_where(v.len() as int, |q: int| float_eq(v[q], v[p])).len() + 1,
{
    let n = v.len() as int;
    lemma_float_eq(v[p], v[p], v[p]);
    assert(indices_where(n, |q: int| index_lt(v, q, p) && !tied(v, q, p)) =~= indices_where(
        n,
        |q: int| total_lt(v[q], v[p]) && !float_eq(v[q], v[p]),
    ));
    assert(indices_where(n, |q: int| tied(v, q, p)) =~= indices_where(
        n,
        |q: int| float_eq(v[q], v[p]),
    ));
}

} // verus!

verus! {

/// IEEE-754 `<` on `f64`, as `<` on the values compares them: false when
/// either is NaN, and `-0.0 < +0.0` is false.
pub open spec fn float_lt(a: u64, b: u64) -> bool {
    !is_nan(a) && !is_nan(b) && total_lt(a, b) && !float_eq(a, b)
}

/// Ranks depend on values, not on input order: when `w` rearranges `v` by a
/// permutation, each non-NaN entry keeps its rank.
pub proof fn lemma_rank_permutation(v: Seq<u64>, w: Seq<u64>, perm: Seq<usize>, t: int)
    requires
        is_permutation(perm, v.len() as int),
        w.len() == v.len(),
        forall|s: int| 0 <= s < w.len() ==> #[trigger] w[s] == v[perm[s] as int],
        0 <= t < w.len(),
        !is_nan(w[t]),
    ensures
        doubled_average_rank(w, t) == doubled_average_rank(v, perm[t] as int),
{
    let n = v.len() as int;
    let x = w[t];
    let p = perm[t] as int;
    lemma_rank_counts_values(w, t);
    lemma_rank_counts_values(v, p);
    lemma_count_through_permutation(
        perm,
        n,
        |q: int| total_lt(v[q], x) && !float_eq(v[q], x),
        |q: int| total_lt(w[q], x) && !float_eq(w[q], x),
    );
    lemma_count_through_permutation(
        perm,
        n,
        |q: int| float_eq(v[q], x),
        |q: int| float_eq(w[q], x),
    );
    assert(indices_where(n, |q: int| total_lt(v[q], x) && !float_eq(v[q], x)) =~= indices_where(
        v.len() as int,
        |q: int| total_lt(v[q], v[p]) && !float_eq(v[q], v[p]),
    ));
    assert(indices_where(n, |q: int| float_eq(v[q], x)) =~= indices_where(
        v.len() as int,
        |q: int| float_eq(v[q], v[p]),
    ));
    assert(indices_where(n, |q: int| total_lt(w[q], x) && !float_eq(w[q], x)) =~= indices_where(
        w.len() as int,
        |q: int| total_lt(w[q], w[t]) && !float_eq(w[q], w[t]),
    ));
    assert(indices_where(n, |q: int| float_eq(w[q], x)) =~= indices_where(
        w.len() as int,
        |q: int| float_eq(w[q], w[t]),
    ));
}

/// Ranks depend only on how the values compare: two NaN-free inputs of one
/// length whose entries compare alike under `<` and `==` get the same ranks.
pub proof fn lemma_rank_order_invariant(v: Seq<u64>, w: Seq<u64>, p: int)
    requires
        w.len() == v.len(),
        forall|i: int| 0 <= i < v.len() ==> !is_nan(#[trigger] v[i]),
        forall|i: int| 0 <= i < w.len() ==> !is_nan(#[trigger] w[i]),
        forall|i: int, j: int|
            0 <= i < v.len() && 0 <= j < v.len() ==> (float_lt(w[i], w[j]) <==> float_lt(
                v[i],
                v[j],
            )) && (float_eq(w[i], w[j]) <==> float_eq(v[i], v[j])),
        0 <= p < v.len(),
    ensures
        doubled_average_rank(w, p) == doubled_average_rank(v, p),
{
    let n = v.len() as int;
    lemma_rank_counts_values(w, p);
    lemma_rank_counts_values(v, p);
    assert forall|q: int| 0 <= q < n implies ((total_lt(w[q], w[p]) && !float_eq(w[q], w[p]))
        <==> (total_lt(v[q], v[p]) && !float_eq(v[q], v[p]))) by {
        assert(float_lt(w[q], w[p]) <==> float_lt(v[q], v[p]));
    }
    assert(indices_where(w.len() as int, |q: int| total_lt(w[q], w[p]) && !float_eq(w[q], w[p]))
        =~= indices_where(
        v.len() as int,
        |q: int| total_lt(v[q], v[p]) && !float_eq(v[q], v[p]),
    ));
    assert(indices_where(w.len() as int, |q: int| float_eq(w[q], w[p])) =~= indices_where(
        v.len() as int,
        |q: int| float_eq(v[q], v[p]),
    ));
}

} // verus!

verus! {

/// Only equal values tie: two non-NaN entries with different bit patterns,
/// not both zeros, get different ranks; entries with the same non-NaN
/// pattern, or two zeros, get the same rank.
pub proof fn lemma_ranks_separate_values(v: Seq<u64>, p: int, q: int)
    requires
        0 <= p < v.len(),
        0 <= q < v.len(),
        v[p] % 0x8000_0000_0000_0000u64 <= 0x7ff0_0000_0000_0000u64,
        v[q] % 0x8000_0000_0000_0000u64 <= 0x7ff0_0000_0000_0000u64,
    ensures
        (v[p] != v[q] && !(v[p] % 0x8000_0000_0000_0000u64 == 0 && v[q]
            % 0x8000_0000_0000_0000u64 == 0)) ==> doubled_average_rank(v, p)
            != doubled_average_rank(v, q),
        (v[p] == v[q] || (v[p] % 0x8000_0000_0000_0000u64 == 0 && v[q]
            % 0x8000_0000_0000_0000u64 == 0)) ==> doubled_average_rank(v, p)
            == doubled_average_rank(v, q),
{
    lemma_float_eq_on_patterns(v[q], v[p]);
    lemma_float_eq_on_patterns(v[p], v[q]);
    if float_eq(v[q], v[p]) {
        lemma_tied_share_rank(v, p, q);
    } else if p != q {
        lemma_total_order(v[p], v[q], 0);
        lemma_tied(v, p, q, 0);
        if v[p] == v[q] {
            assert(float_eq(v[q], v[p]));
        }
        if index_lt(v, p, q) {
            lemma_rank_increases(v, p, q);
        } else {
            assert(index_lt(v, q, p));
            lemma_rank_increases(v, q, p);
        }
    }
}

} // verus!
