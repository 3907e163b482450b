//! The shape of the samples the test is run on: at least two groups, none
//! empty, laid end to end in one pooled sequence.
use vstd::prelude::*;
use crate::error::FlignerError;

verus! {

/// The sum of the group sizes.
pub open spec fn total_size(sizes: Seq<usize>) -> int
    decreases sizes.len(),
{
    if sizes.len() == 0 {
        0
    } else {
        total_size(sizes.drop_last()) + sizes.last()
    }
}

/// Group `i` (0-based) is the first empty one.
pub open spec fn is_first_empty(sizes: Seq<usize>, i: int) -> bool {
    &&& 0 <= i < sizes.len()
    &&& sizes[i] == 0
    &&& forall|j: int| 0 <= j < i ==> sizes[j] != 0
}

proof fn lemma_total_size_prefix(sizes: Seq<usize>, i: int)
    requires
        0 <= i <= sizes.len(),
    ensures
        0 <= total_size(sizes.subrange(0, i)) <= total_size(sizes),
    decreases sizes.len(),
{
    if i == sizes.len() {
        assert(sizes.subrange(0, i) =~= sizes);
    } else {
        assert(sizes.drop_last().subrange(0, i) =~= sizes.subrange(0, i));
        lemma_total_size_prefix(sizes.drop_last(), i);
    }
    lemma_total_size_nonneg(sizes.subrange(0, i));
}

proof fn lemma_total_size_nonneg(sizes: Seq<usize>)
    ensures
        total_size(sizes) >= 0,
    decreases sizes.len(),
{
    if sizes.len() > 0 {
        lemma_total_size_nonneg(sizes.drop_last());
    }
}

/// Checks the group sizes as the Fligner-Killeen test does (at least two
/// groups, the first empty group refused) and returns where each group
/// starts in the pooled sequence: `offsets[i]` is the total size of the
/// groups before group `i`, and `offsets[k]` the total size.
pub fn group_offsets(sizes: &[usize]) -> (r: Result<Vec<usize>, FlignerError>)
    requires
        total_size(sizes@) <= usize::MAX,
    ensures
        sizes.len() < 2 ==> r == Err::<Vec<usize>, FlignerError>(FlignerError::TooFewGroups),
        sizes.len() >= 2 ==> ((r is Err) <==> exists|i: int|
            0 <= i < sizes.len() && #[trigger] sizes[i] == 0),
        forall|i: int|
            sizes.len() >= 2 && #[trigger] is_first_empty(sizes@, i) ==> r
                == Err::<Vec<usize>, FlignerError>(
                FlignerError::EmptyGroup { group: (i + 1) as usize },
            ),
        r matches Ok(offsets) ==> {
            &&& offsets.len() == sizes.len() + 1
            &&& forall|i: int|
                0 <= i <= sizes.len() ==> #[trigger] offsets[i] == total_size(
                    sizes@.subrange(0, i),
                )
        },
{
    let k = sizes.len();
    if k < 2 {
        return Err(FlignerError::TooFewGroups);
    }
    let mut i: usize = 0;
    while i < k
        invariant
            k == sizes.len(),
            k >= 2,
            i <= k,
            forall|j: int| 0 <= j < i ==> sizes[j] != 0,
        decreases k - i,
    {
        if sizes[i] == 0 {
            proof {
                assert(is_first_empty(sizes@, i as int));
                assert forall|m: int| #[trigger] is_first_empty(sizes@, m) implies m == i by {
                    if m < i {
                        assert(sizes[m] != 0);
                    } else if m > i {
                        assert(sizes[i as int] != 0);
                    }
                }
            }
            return Err(FlignerError::EmptyGroup { group: i + 1 });
        }
        i = i + 1;
    }
    let mut offsets: Vec<usize> = Vec::new();
    offsets.push(0);
    let mut acc: usize = 0;
    let mut g: usize = 0;
    proof {
        assert(sizes@.subrange(0, 0) =~= Seq::<usize>::empty());
    }
    while g < k
        invariant
            k == sizes.len(),
            k >= 2,
            forall|j: int| 0 <= j < k ==> sizes[j] != 0,
            total_size(sizes@) <= usize::MAX,
            g <= k,
            offsets.len() == g + 1,
            acc == total_size(sizes@.subrange(0, g as int)),
            forall|j: int| 0 <= j <= g ==> #[trigger] offsets[j] == total_size(
                sizes@.subrange(0, j),
            ),
        decreases k - g,
    {
        proof {
            let sub = sizes@.subrange(0, g + 1);
            assert(sub.drop_last() =~= sizes@.subrange(0, g as int));
            lemma_total_size_prefix(sizes@, g + 1);
        }
        acc = acc + sizes[g];
        offsets.push(acc);
        g = g + 1;
    }
    Ok(offsets)
}

} // verus!

verus! {

/// The sizes of the samples left once `cuts[i]` values are cut from each end
/// of group `i`.
pub open spec fn kept_sizes(sizes: Seq<usize>, cuts: Seq<usize>) -> Seq<usize> {
    Seq::new(sizes.len(), |i: int| (sizes[i] - 2 * cuts[i]) as usize)
}

/// Cutting `cuts[i]` from each end leaves nothing of group `i`.
pub open spec fn overcut(sizes: Seq<usize>, cuts: Seq<usize>, i: int) -> bool {
    2 * cuts[i] >= sizes[i]
}

proof fn lemma_total_size_smaller(a: Seq<usize>, b: Seq<usize>)
    requires
        a.len() == b.len(),
        forall|i: int| 0 <= i < a.len() ==> #[trigger] a[i] <= b[i],
    ensures
        total_size(a) <= total_size(b),
    decreases a.len(),
{
    if a.len() > 0 {
        lemma_total_size_smaller(a.drop_last(), b.drop_last());
        assert(a.last() == a[a.len() - 1]);
    }
}

/// Checks the groups as the Fligner-Killeen test does, in its order: at
/// least two groups, then the first empty group, then any group that its
/// cut would empty (`cuts[i]` values from each end; all zero when nothing is
/// trimmed). Returns where each kept sample starts in the pooled sequence.
pub fn sample_offsets(sizes: &[usize], cuts: &[usize]) -> (r: Result<Vec<usize>, FlignerError>)
    requires
        cuts.len() == sizes.len(),
        total_size(sizes@) <= usize::MAX,
    ensures
        sizes.len() < 2 ==> r == Err::<Vec<usize>, FlignerError>(FlignerError::TooFewGroups),
        forall|i: int|
            sizes.len() >= 2 && #[trigger] is_first_empty(sizes@, i) ==> r
                == Err::<Vec<usize>, FlignerError>(
                FlignerError::EmptyGroup { group: (i + 1) as usize },
            ),
        sizes.len() >= 2 && (forall|i: int| 0 <= i < sizes.len() ==> #[trigger] sizes[i] != 0)
            ==> ((r is Err) <==> exists|i: int|
            0 <= i < sizes.len() && #[trigger] overcut(sizes@, cuts@, i)),
        sizes.len() >= 2 && (forall|i: int| 0 <= i < sizes.len() ==> #[trigger] sizes[i] != 0)
            && r is Err ==> r == Err::<Vec<usize>, FlignerError>(
            FlignerError::NothingLeftAfterTrimming,
        ),
        r matches Ok(offsets) ==> {
            &&& offsets.len() == sizes.len() + 1
            &&& forall|i: int|
                0 <= i <= sizes.len() ==> #[trigger] offsets[i] == total_size(
                    kept_sizes(sizes@, cuts@).subrange(0, i),
                )
        },
{
    let checked = group_offsets(sizes);
    match checked {
        Err(e) => {
            return Err(e);
        },
        Ok(_) => {},
    }
    let k = sizes.len();
    proof {
        assert(k >= 2);
        assert forall|j: int| 0 <= j < k implies #[trigger] sizes[j] != 0 by {
            if sizes[j] == 0 {
                assert(exists|m: int| 0 <= m < sizes.len() && #[trigger] sizes[m] == 0);
            }
        }
    }
    let mut kept: Vec<usize> = Vec::new();
    let mut i: usize = 0;
    while i < k
        invariant
            k == sizes.len(),
            k == cuts.len(),
            k >= 2,
            forall|j: int| 0 <= j < k ==> #[trigger] sizes[j] != 0,
            i <= k,
            kept.len() == i,
            forall|j: int| 0 <= j < i ==> !overcut(sizes@, cuts@, j),
            forall|j: int| 0 <= j < i ==> #[trigger] kept[j] == kept_sizes(sizes@, cuts@)[j],
        decreases k - i,
    {
        if cuts[i] > sizes[i] || cuts[i] >= sizes[i] - cuts[i] {
            proof {
                assert(overcut(sizes@, cuts@, i as int));
                assert forall|m: int| #[trigger] is_first_empty(sizes@, m) implies false by {
                    assert(sizes[m] != 0);
                }
            }
            return Err(FlignerError::NothingLeftAfterTrimming);
        }
        kept.push(sizes[i] - 2 * cuts[i]);
        i = i + 1;
    }
    proof {
        assert(kept@ =~= kept_sizes(sizes@, cuts@));
        assert forall|j: int| 0 <= j < k implies #[trigger] kept@[j] <= sizes@[j] by {
            assert(kept[j] == kept_sizes(sizes@, cuts@)[j]);
            assert(!overcut(sizes@, cuts@, j));
        }
        lemma_total_size_smaller(kept@, sizes@);
        assert forall|j: int| 0 <= j < k implies #[trigger] kept[j] != 0 by {
            assert(!overcut(sizes@, cuts@, j));
        }
    }
    let r = group_offsets(kept.as_slice());
    proof {
        assert forall|j: int| 0 <= j < k implies !overcut(sizes@, cuts@, j) by {}
        if r is Err {
            let j = choose|j: int| 0 <= j < kept.len() && #[trigger] kept@[j] == 0;
            assert(kept[j] != 0);
        }
    }
    r
}

} // verus!
