use rsomics_fligner::center::{median_parts, trimmed_order_statistics, MedianParts};
use rsomics_fligner::groups::{group_offsets, sample_offsets};
use rsomics_fligner::order::{float_eq_bits, total_lt_bits};
use rsomics_fligner::sort::{sorted_by_total_order, stable_order};
use rsomics_fligner::{Center, CenterArg, FlignerError};

fn bits(values: &[f64]) -> Vec<u64> {
    values.iter().map(|v| v.to_bits()).collect()
}

fn floats(b: &[u64]) -> Vec<f64> {
    b.iter().map(|&x| f64::from_bits(x)).collect()
}

#[test]
fn center_arg_names_its_centering() {
    assert_eq!(Center::from(CenterArg::Median), Center::Median);
    assert_eq!(Center::from(CenterArg::Mean), Center::Mean);
    assert_eq!(Center::from(CenterArg::Trimmed), Center::Trimmed);
}

#[test]
fn total_order_matches_total_cmp() {
    let samples = [
        f64::NEG_INFINITY,
        -2.5,
        -0.0,
        0.0,
        1e-300,
        3.0,
        f64::INFINITY,
        f64::NAN,
        -f64::NAN,
    ];
    for &a in &samples {
        for &b in &samples {
            assert_eq!(
                total_lt_bits(a.to_bits(), b.to_bits()),
                a.total_cmp(&b) == std::cmp::Ordering::Less,
                "{a} < {b}"
            );
            assert_eq!(float_eq_bits(a.to_bits(), b.to_bits()), a == b, "{a} == {b}");
        }
    }
}

#[test]
fn sorting_follows_total_cmp() {
    let v = [3.0, -1.0, 0.0, -0.0, 2.5, f64::NEG_INFINITY, 2.5];
    let mut expected = v.to_vec();
    expected.sort_by(f64::total_cmp);
    assert_eq!(bits(&expected), sorted_by_total_order(&bits(&v)));
}

#[test]
fn stable_order_keeps_equal_values_in_input_order() {
    let v = bits(&[2.0, 1.0, 2.0, 1.0]);
    assert_eq!(stable_order(&v), vec![1, 3, 0, 2]);
}

#[test]
fn median_of_odd_count_is_the_middle_value() {
    match median_parts(&bits(&[5.0, 1.0, 3.0])) {
        MedianParts::Middle(x) => assert_eq!(f64::from_bits(x), 3.0),
        MedianParts::Halves { .. } => panic!("odd count gave two halves"),
    }
}

#[test]
fn median_of_even_count_gives_lower_half_and_upper_middle() {
    match median_parts(&bits(&[4.0, 1.0, 3.0, 2.0])) {
        MedianParts::Halves { lower, upper } => {
            assert_eq!(floats(&lower), vec![1.0, 2.0]);
            assert_eq!(f64::from_bits(upper), 3.0);
        }
        MedianParts::Middle(_) => panic!("even count gave a single middle"),
    }
}

#[test]
fn trimming_keeps_the_middle_order_statistics() {
    let v = bits(&[9.0, 1.0, 5.0, 3.0, 7.0, 2.0]);
    let kept = trimmed_order_statistics(&v, 1).unwrap();
    assert_eq!(floats(&kept), vec![2.0, 3.0, 5.0, 7.0]);
    let all = trimmed_order_statistics(&v, 0).unwrap();
    assert_eq!(floats(&all), vec![1.0, 2.0, 3.0, 5.0, 7.0, 9.0]);
}

#[test]
fn trimming_everything_is_refused() {
    let v = bits(&[1.0, 2.0, 3.0, 4.0]);
    assert_eq!(
        trimmed_order_statistics(&v, 2),
        Err(FlignerError::NothingLeftAfterTrimming)
    );
    assert!(trimmed_order_statistics(&bits(&[1.0, 2.0, 3.0]), 1).is_ok());
    // A cut larger than the sample, as proportiontocut = 1.5 gives on two values.
    assert_eq!(
        trimmed_order_statistics(&bits(&[1.0, 2.0]), 3),
        Err(FlignerError::NothingLeftAfterTrimming)
    );
    assert_eq!(
        trimmed_order_statistics(&[], usize::MAX),
        Err(FlignerError::NothingLeftAfterTrimming)
    );
}

#[test]
fn group_offsets_lay_groups_end_to_end() {
    assert_eq!(group_offsets(&[3, 1, 4]), Ok(vec![0, 3, 4, 8]));
}

#[test]
fn fewer_than_two_groups_are_refused() {
    assert_eq!(group_offsets(&[5]), Err(FlignerError::TooFewGroups));
    assert_eq!(group_offsets(&[]), Err(FlignerError::TooFewGroups));
}

#[test]
fn first_empty_group_is_named() {
    assert_eq!(
        group_offsets(&[2, 0, 3, 0]),
        Err(FlignerError::EmptyGroup { group: 2 })
    );
    assert_eq!(group_offsets(&[0]), Err(FlignerError::TooFewGroups));
}

#[test]
fn sample_offsets_check_in_the_tests_order() {
    assert_eq!(sample_offsets(&[4], &[9]), Err(FlignerError::TooFewGroups));
    assert_eq!(
        sample_offsets(&[3, 0, 2], &[5, 0, 5]),
        Err(FlignerError::EmptyGroup { group: 2 })
    );
    assert_eq!(
        sample_offsets(&[3, 4], &[0, 2]),
        Err(FlignerError::NothingLeftAfterTrimming)
    );
    assert_eq!(sample_offsets(&[5, 4], &[1, 1]), Ok(vec![0, 3, 5]));
    assert_eq!(sample_offsets(&[5, 4], &[0, 0]), Ok(vec![0, 5, 9]));
}
