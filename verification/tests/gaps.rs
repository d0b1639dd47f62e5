use laytext::geometry::{interval_gaps, run_gaps};

/// The coordinate of `x`: an order key that compares as the numbers do, or
/// `None` for NaN.
fn coord(x: f64) -> Option<i64> {
    if x.is_nan() {
        None
    } else {
        let bits = (x + 0.0).to_bits() as i64;
        Some(bits ^ ((((bits >> 63) as u64) >> 1) as i64))
    }
}

/// The gaps at least `min_gap` wide: ordered and merged by the library,
/// filtered by width here.
fn find_gaps(intervals: &[(f64, f64)], min_gap: f64) -> Vec<(f64, f64)> {
    if intervals.len() >= 2 && intervals.iter().any(|iv| iv.0.is_nan()) {
        panic!("find_gaps: an interval start is NaN and cannot be ordered");
    }
    let coords: Vec<(Option<i64>, Option<i64>)> =
        intervals.iter().map(|iv| (coord(iv.0), coord(iv.1))).collect();
    interval_gaps(&coords)
        .into_iter()
        .map(|(a, b)| (intervals[a].1, intervals[b].0))
        .filter(|g| g.1 - g.0 >= min_gap)
        .collect()
}

#[test]
fn find_gaps_empty_input_returns_no_gaps() {
    assert_eq!(find_gaps(&[], 1.0), vec![]);
}

#[test]
fn find_gaps_single_interval_returns_no_gaps() {
    assert_eq!(find_gaps(&[(0.0, 5.0)], 1.0), vec![]);
}

#[test]
fn find_gaps_overlapping_intervals_merge_without_a_gap() {
    assert_eq!(find_gaps(&[(0.0, 5.0), (3.0, 8.0)], 1.0), vec![]);
}

#[test]
fn find_gaps_touching_intervals_merge_without_a_gap() {
    assert_eq!(find_gaps(&[(0.0, 5.0), (5.0, 8.0)], 1.0), vec![]);
}

#[test]
fn find_gaps_gap_smaller_than_min_gap_is_not_reported() {
    assert_eq!(find_gaps(&[(0.0, 5.0), (5.5, 8.0)], 1.0), vec![]);
}

#[test]
fn find_gaps_gap_at_least_min_gap_is_reported() {
    assert_eq!(
        find_gaps(&[(0.0, 5.0), (7.0, 8.0)], 2.0),
        vec![(5.0, 7.0)]
    );
}

#[test]
fn find_gaps_unsorted_input_is_handled() {
    assert_eq!(
        find_gaps(&[(7.0, 8.0), (0.0, 5.0)], 2.0),
        vec![(5.0, 7.0)]
    );
}

#[test]
fn find_gaps_returns_multiple_gaps_in_order() {
    assert_eq!(
        find_gaps(&[(0.0, 5.0), (10.0, 15.0), (20.0, 25.0)], 2.0),
        vec![(5.0, 10.0), (15.0, 20.0)]
    );
}

#[test]
fn negative_zero_touches_positive_zero() {
    assert_eq!(find_gaps(&[(-5.0, -0.0), (0.0, 5.0)], 0.0), vec![]);
}

#[test]
fn run_gaps_name_the_intervals_that_bound_each_gap() {
    let ivs = vec![(Some(0), Some(50)), (Some(65), Some(100)), (Some(65), Some(140)), (Some(300), Some(350))];
    assert_eq!(run_gaps(&ivs), vec![(0, 1), (2, 3)]);
}

#[test]
fn a_contained_interval_does_not_shrink_its_run() {
    let ivs = vec![(Some(0), Some(100)), (Some(10), Some(20)), (Some(110), Some(120))];
    assert_eq!(run_gaps(&ivs), vec![(0, 2)]);
}

#[test]
fn an_end_that_is_not_a_number_closes_its_run() {
    // (0, NaN), (10, 20), (30, 40)
    let ivs = vec![(Some(0), None), (Some(10), Some(20)), (Some(30), Some(40))];
    assert_eq!(run_gaps(&ivs), vec![(0, 1), (1, 2)]);
}

#[test]
fn a_start_that_is_not_a_number_opens_a_run() {
    let ivs = vec![(Some(0), Some(10)), (None, Some(5))];
    assert_eq!(run_gaps(&ivs), vec![(0, 1)]);
}

#[test]
fn interval_gaps_do_not_depend_on_input_order() {
    let a = vec![(Some(20), Some(25)), (Some(0), Some(5)), (Some(10), Some(15)), (Some(3), Some(8))];
    let b = vec![(Some(3), Some(8)), (Some(10), Some(15)), (Some(0), Some(5)), (Some(20), Some(25))];
    let values = |ivs: &Vec<(Option<i64>, Option<i64>)>| -> Vec<(Option<i64>, Option<i64>)> {
        interval_gaps(ivs).into_iter().map(|(o, c)| (ivs[o].1, ivs[c].0)).collect()
    };
    assert_eq!(values(&a), vec![(Some(8), Some(10)), (Some(15), Some(20))]);
    assert_eq!(values(&a), values(&b));
}

#[test]
fn a_nan_end_closes_its_run_without_panicking() {
    let gaps = find_gaps(&[(0.0, f64::NAN), (10.0, 20.0), (30.0, 40.0)], 1.0);
    assert_eq!(gaps, vec![(20.0, 30.0)]);
}

#[test]
fn a_reversed_interval_with_its_own_start_gives_the_same_gaps_in_any_order() {
    let expected = vec![(10.0, 20.0), (15.0, 30.0)];
    assert_eq!(find_gaps(&[(0.0, 10.0), (20.0, 15.0), (30.0, 40.0)], 1.0), expected);
    assert_eq!(find_gaps(&[(30.0, 40.0), (20.0, 15.0), (0.0, 10.0)], 1.0), expected);
    assert_eq!(find_gaps(&[(20.0, 15.0), (30.0, 40.0), (0.0, 10.0)], 1.0), expected);
}

#[test]
fn a_reversed_interval_sharing_its_start_depends_on_input_order() {
    // equal starts keep their input order, and the reversed interval opens
    // a gap only when it comes first
    assert_eq!(find_gaps(&[(0.0, 5.0), (0.0, -1.0)], 1.0), vec![]);
    assert_eq!(find_gaps(&[(0.0, -1.0), (0.0, 5.0)], 1.0), vec![(-1.0, 0.0)]);
}
