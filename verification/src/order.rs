//! IEEE-754 order and equality on `f64` bit patterns, and the counting
//! facts about index permutations that the sorting and ranking proofs use.
use vstd::prelude::*;
use vstd::relations::injective_on;
use vstd::set_lib::{lemma_int_range, lemma_len_subset, lemma_map_size, lemma_subset_equality, set_int_range};

verus! {

/// The sign bit of an `f64` bit pattern is set.
pub open spec fn sign_set(b: u64) -> bool {
    b >= 0x8000_0000_0000_0000u64
}

/// The bit pattern with its sign bit cleared: exponent and mantissa.
pub open spec fn magnitude(b: u64) -> int {
    if sign_set(b) {
        b - 0x8000_0000_0000_0000int
    } else {
        b as int
    }
}

/// The pattern encodes a NaN: all exponent bits set and a nonzero mantissa.
pub open spec fn is_nan(b: u64) -> bool {
    magnitude(b) > 0x7ff0_0000_0000_0000int
}

/// The pattern encodes `+0.0` or `-0.0`.
pub open spec fn is_zero(b: u64) -> bool {
    magnitude(b) == 0
}

/// IEEE-754 `totalOrder`, strict, as `f64::total_cmp` computes it:
/// every negative pattern precedes every positive one; among positive
/// patterns a larger pattern is larger, among negative ones it is smaller.
pub open spec fn total_lt(a: u64, b: u64) -> bool {
    if sign_set(a) != sign_set(b) {
        sign_set(a)
    } else if sign_set(a) {
        a > b
    } else {
        a < b
    }
}

/// `totalOrder`, non-strict.
pub open spec fn total_le(a: u64, b: u64) -> bool {
    total_lt(a, b) || a == b
}

/// The IEEE-754 equality that `==` on `f64` computes: no NaN equals
/// anything, `+0.0 == -0.0`, and otherwise equal values have equal patterns.
pub open spec fn float_eq(a: u64, b: u64) -> bool {
    !is_nan(a) && !is_nan(b) && (a == b || (is_zero(a) && is_zero(b)))
}

/// The indices below `n` at which `pred` holds.
pub open spec fn indices_where(n: int, pred: spec_fn(int) -> bool) -> Set<int> {
    Set::new(|q: int| 0 <= q < n && pred(q))
}

/// Some entry of `o` is `q`.
pub open spec fn reaches(o: Seq<usize>, q: int) -> bool {
    exists|m: int| 0 <= m < o.len() && o[m] == q
}

/// `o` lists each index below `n` exactly once.
pub open spec fn is_permutation(o: Seq<usize>, n: int) -> bool {
    &&& o.len() == n
    &&& forall|i: int| 0 <= i < n ==> #[trigger] o[i] < n
    &&& forall|i: int, j: int| 0 <= i < j < n ==> #[trigger] o[i] != #[trigger] o[j]
}

pub fn total_lt_bits(a: u64, b: u64) -> (r: bool)
    ensures
        r == total_lt(a, b),
{
    let sa = a >= 0x8000_0000_0000_0000u64;
    let sb = b >= 0x8000_0000_0000_0000u64;
    if sa != sb {
        sa
    } else if sa {
        a > b
    } else {
        a < b
    }
}

pub fn float_eq_bits(a: u64, b: u64) -> (r: bool)
    ensures
        r == float_eq(a, b),
{
    let ma = if a >= 0x8000_0000_0000_0000u64 { a - 0x8000_0000_0000_0000u64 } else { a };
    let mb = if b >= 0x8000_0000_0000_0000u64 { b - 0x8000_0000_0000_0000u64 } else { b };
    let nan_a = ma > 0x7ff0_0000_0000_0000u64;
    let nan_b = mb > 0x7ff0_0000_0000_0000u64;
    !nan_a && !nan_b && (a == b || (ma == 0 && mb == 0))
}

pub proof fn lemma_total_order(a: u64, b: u64, c: u64)
    ensures
        !total_lt(a, a),
        total_lt(a, b) ==> !total_lt(b, a),
        a != b ==> total_lt(a, b) || total_lt(b, a),
        total_lt(a, b) && total_lt(b, c) ==> total_lt(a, c),
        total_le(a, b) && total_le(b, a) ==> a == b,
{
}

/// Float equality is an equivalence on the non-NaN patterns, and its classes
/// are intervals of the total order.
pub proof fn lemma_float_eq(a: u64, b: u64, c: u64)
    ensures
        float_eq(a, b) ==> float_eq(b, a),
        float_eq(a, b) && float_eq(b, c) ==> float_eq(a, c),
        !is_nan(a) ==> float_eq(a, a),
        total_le(a, b) && total_le(b, c) && float_eq(a, c) ==> float_eq(a, b) && float_eq(b, c),
{
}

pub proof fn lemma_indices_where_finite(n: int, pred: spec_fn(int) -> bool)
    requires
        0 <= n,
    ensures
        indices_where(n, pred).finite(),
        indices_where(n, pred).len() <= n,
{
    lemma_int_range(0, n);
    lemma_len_subset(indices_where(n, pred), set_int_range(0, n));
}

/// The indices `lo..hi` below `n` number `hi - lo`.
pub proof fn lemma_indices_interval(n: int, lo: int, hi: int, pred: spec_fn(int) -> bool)
    requires
        0 <= lo <= hi <= n,
        forall|m: int| 0 <= m < n ==> (#[trigger] pred(m) <==> lo <= m < hi),
    ensures
        indices_where(n, pred).len() == hi - lo,
{
    lemma_int_range(lo, hi);
    assert(indices_where(n, pred) =~= set_int_range(lo, hi));
}

/// A permutation of `0..n` reaches every index.
pub proof fn lemma_permutation_onto(o: Seq<usize>, n: int)
    requires
        is_permutation(o, n),
    ensures
        forall|q: int| 0 <= q < n ==> #[trigger] reaches(o, q),
{
    let full = set_int_range(0, n);
    let f = |m: int| o[m] as int;
    let img = full.map(f);
    lemma_int_range(0, n);
    assert(injective_on(f, full)) by {
        assert forall|x1: int, x2: int|
            full.contains(x1) && full.contains(x2) && f(x1) == f(x2) implies x1 == x2 by {
            if x1 < x2 {
                assert(o[x1] != o[x2]);
            } else if x2 < x1 {
                assert(o[x2] != o[x1]);
            }
        }
    }
    lemma_map_size(full, img, f);
    assert(img.subset_of(full));
    lemma_subset_equality(img, full);
    assert forall|q: int| 0 <= q < n implies #[trigger] reaches(o, q) by {
        assert(full.contains(q));
        assert(img.contains(q));
    }
}

/// Counting the indices that satisfy a predicate gives the same number
/// whether the indices are taken directly or through a permutation.
pub proof fn lemma_count_through_permutation(
    o: Seq<usize>,
    n: int,
    pred: spec_fn(int) -> bool,
    through: spec_fn(int) -> bool,
)
    requires
        is_permutation(o, n),
        forall|m: int| 0 <= m < n ==> (through(m) <==> pred(o[m] as int)),
    ensures
        indices_where(n, through).len() == indices_where(n, pred).len(),
{
    let s1 = indices_where(n, through);
    let s2 = indices_where(n, pred);
    let f = |m: int| o[m] as int;
    lemma_permutation_onto(o, n);
    lemma_indices_where_finite(n, through);
    assert(s1.map(f) =~= s2) by {
        assert forall|q: int| s2.contains(q) implies s1.map(f).contains(q) by {
            assert(reaches(o, q));
            let m = choose|m: int| 0 <= m < o.len() && o[m] == q;
            assert(s1.contains(m));
            assert(f(m) == q);
        }
    }
    assert(injective_on(f, s1)) by {
        assert forall|x1: int, x2: int|
            s1.contains(x1) && s1.contains(x2) && f(x1) == f(x2) implies x1 == x2 by {
            if x1 < x2 {
                assert(o[x1] != o[x2]);
            } else if x2 < x1 {
                assert(o[x2] != o[x1]);
            }
        }
    }
    lemma_map_size(s1, s2, f);
}

} // verus!

verus! {

/// `f(0) + f(1) + ... + f(n - 1)`.
pub open spec fn sum_upto(n: int, f: spec_fn(int) -> int) -> int
    decreases n,
{
    if n <= 0 {
        0
    } else {
        sum_upto(n - 1, f) + f(n - 1)
    }
}

/// Sums of functions that agree below `n` agree.
pub proof fn lemma_sum_agree(n: int, f: spec_fn(int) -> int, g: spec_fn(int) -> int)
    requires
        forall|m: int| 0 <= m < n ==> #[trigger] f(m) == g(m),
    ensures
        sum_upto(n, f) == sum_upto(n, g),
    decreases n,
{
    if n > 0 {
        lemma_sum_agree(n - 1, f, g);
    }
}

/// Adding the terms `i..j`, each equal to `c`, adds `(j - i) c`.
pub proof fn lemma_sum_constant_run(i: int, j: int, f: spec_fn(int) -> int, c: int)
    requires
        0 <= i <= j,
        forall|m: int| i <= m < j ==> #[trigger] f(m) == c,
    ensures
        sum_upto(j, f) == sum_upto(i, f) + (j - i) * c,
    decreases j - i,
{
    if j > i {
        lemma_sum_constant_run(i, j - 1, f, c);
        assert(f(j - 1) == c);
        assert((j - 1 - i) * c + c == (j - i) * c) by (nonlinear_arith);
    } else {
        assert((j - i) * c == 0) by (nonlinear_arith)
            requires
                j == i,
        ;
    }
}

/// Taking the term at `k` out of a sum leaves the sum of the other terms.
proof fn lemma_sum_without(n: int, f: spec_fn(int) -> int, g: spec_fn(int) -> int, k: int)
    requires
        0 <= k < n,
        forall|m: int| 0 <= m < k ==> #[trigger] g(m) == f(m),
        forall|m: int| k <= m < n - 1 ==> #[trigger] g(m) == f(m + 1),
    ensures
        sum_upto(n, f) == sum_upto(n - 1, g) + f(k),
    decreases n,
{
    if k == n - 1 {
        lemma_sum_agree(n - 1, f, g);
    } else {
        lemma_sum_without(n - 1, f, g, k);
        assert(g(n - 2) == f(n - 1));
    }
}

/// Summing through a permutation of `0..n` gives the same sum.
pub proof fn lemma_sum_through_permutation(o: Seq<usize>, n: int, f: spec_fn(int) -> int)
    requires
        is_permutation(o, n),
    ensures
        sum_upto(n, |m: int| f(o[m] as int)) == sum_upto(n, f),
    decreases n,
{
    if n > 0 {
        lemma_permutation_onto(o, n);
        assert(reaches(o, n - 1));
        let k = choose|k: int| 0 <= k < o.len() && o[k] == n - 1;
        let o2 = o.remove(k);
        assert(is_permutation(o2, n - 1)) by {
            assert forall|i: int| 0 <= i < n - 1 implies #[trigger] o2[i] < n - 1 by {
                if i < k {
                    assert(o2[i] == o[i] && o[i] != o[k]);
                } else {
                    assert(o2[i] == o[i + 1] && o[k] != o[i + 1]);
                }
            }
            assert forall|i: int, j: int| 0 <= i < j < n - 1 implies #[trigger] o2[i]
                != #[trigger] o2[j] by {
                let a = if i < k { i } else { i + 1 };
                let b = if j < k { j } else { j + 1 };
                assert(o2[i] == o[a] && o2[j] == o[b]);
                assert(o[a] != o[b]);
            }
        }
        lemma_sum_through_permutation(o2, n - 1, f);
        lemma_sum_without(
            n,
            |m: int| f(o[m] as int),
            |m: int| f(o2[m] as int),
            k,
        );
    }
}

} // verus!

verus! {

/// The total order compares bit patterns as numbers: among patterns with the
/// sign bit clear (`+0.0`, positive values, `+inf`, positive NaNs) a larger
/// pattern is larger, among patterns with the sign bit set a larger pattern
/// is smaller, and every pattern with the sign bit set comes first.
pub proof fn lemma_total_lt_on_patterns(a: u64, b: u64)
    ensures
        a < 0x8000_0000_0000_0000u64 && b < 0x8000_0000_0000_0000u64 ==> (total_lt(a, b)
            <==> a < b),
        a >= 0x8000_0000_0000_0000u64 && b >= 0x8000_0000_0000_0000u64 ==> (total_lt(a, b)
            <==> a > b),
        a >= 0x8000_0000_0000_0000u64 && b < 0x8000_0000_0000_0000u64 ==> total_lt(a, b),
{
}

/// Float equality on patterns: NaN patterns (exponent all ones, mantissa
/// nonzero) equal nothing; other patterns are equal exactly when they are
/// the same pattern or both encode a zero.
pub proof fn lemma_float_eq_on_patterns(a: u64, b: u64)
    ensures
        float_eq(a, b) <==> (a % 0x8000_0000_0000_0000u64 <= 0x7ff0_0000_0000_0000u64 && b
            % 0x8000_0000_0000_0000u64 <= 0x7ff0_0000_0000_0000u64 && (a == b || (a
            % 0x8000_0000_0000_0000u64 == 0 && b % 0x8000_0000_0000_0000u64 == 0))),
{
}

} // verus!
