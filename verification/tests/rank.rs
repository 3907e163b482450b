use rsomics_fligner::rank::rankdata_average;

fn bits(values: &[f64]) -> Vec<u64> {
    values.iter().map(|v| v.to_bits()).collect()
}

fn ranks(values: &[f64]) -> Vec<f64> {
    rankdata_average(&bits(values))
        .iter()
        .map(|&d| d as f64 / 2.0)
        .collect()
}

#[test]
fn distinct_values() {
    let r = ranks(&[3.0, 1.0, 2.0]);
    assert_eq!(r, vec![3.0, 1.0, 2.0]);
}

#[test]
fn tie_averaging() {
    // scipy.stats.rankdata([1, 2, 2, 2, 1, 3]) == [1.5, 4, 4, 4, 1.5, 6]
    let r = ranks(&[1.0, 2.0, 2.0, 2.0, 1.0, 3.0]);
    assert_eq!(r, vec![1.5, 4.0, 4.0, 4.0, 1.5, 6.0]);
}

#[test]
fn empty_input_has_no_ranks() {
    assert!(rankdata_average(&[]).is_empty());
}

#[test]
fn doubled_ranks_are_whole_numbers() {
    assert_eq!(rankdata_average(&bits(&[5.0, 5.0])), vec![3, 3]);
    assert_eq!(rankdata_average(&bits(&[2.0, 1.0])), vec![4, 2]);
}

#[test]
fn signed_zeros_tie() {
    // -0.0 == 0.0, so the two zeros share the average of positions 1 and 2.
    let r = ranks(&[0.0, -0.0, 1.0]);
    assert_eq!(r, vec![1.5, 1.5, 3.0]);
}

#[test]
fn negative_values_rank_below_positive() {
    let r = ranks(&[-1.0, 2.0, -3.0, 0.5]);
    assert_eq!(r, vec![2.0, 4.0, 1.0, 3.0]);
}

#[test]
fn infinities_rank_at_the_ends() {
    let r = ranks(&[f64::INFINITY, 0.0, f64::NEG_INFINITY]);
    assert_eq!(r, vec![3.0, 2.0, 1.0]);
}

#[test]
fn nan_entries_never_tie() {
    // NaN != NaN: each NaN is a class of its own, after +inf in total order,
    // in input order among equal patterns.
    let r = ranks(&[f64::NAN, 1.0, f64::NAN]);
    assert_eq!(r, vec![2.0, 1.0, 3.0]);
}

#[test]
fn all_equal_share_the_middle_rank() {
    let r = ranks(&[7.0; 5]);
    assert_eq!(r, vec![3.0; 5]);
}

#[test]
fn ranks_sum_to_triangular_number() {
    let v = [4.0, 1.0, 4.0, 2.0, 2.0, 2.0, 9.0, 0.0];
    let r = ranks(&v);
    let n = v.len() as f64;
    assert_eq!(r.iter().sum::<f64>(), n * (n + 1.0) / 2.0);
}

#[test]
fn larger_input_matches_counting_definition() {
    let mut state: u64 = 0x9E37_79B9_7F4A_7C15;
    let mut v = Vec::new();
    for _ in 0..500 {
        state ^= state << 13;
        state ^= state >> 7;
        state ^= state << 17;
        v.push(((state >> 40) % 50) as f64 - 25.0);
    }
    let r = ranks(&v);
    for (p, &x) in v.iter().enumerate() {
        let below = v.iter().filter(|&&y| y < x).count() as f64;
        let ties = v.iter().filter(|&&y| y == x).count() as f64;
        assert_eq!(r[p], below + (ties + 1.0) / 2.0);
    }
}
