use laytext::lines::{line_spans, LineSpan};

fn spans(n: usize, align: Vec<(bool, bool)>) -> Vec<(usize, usize, bool)> {
    line_spans(n, &align)
        .into_iter()
        .map(|s: LineSpan| (s.start, s.end, s.upright))
        .collect()
}

#[test]
fn no_chars_give_no_lines() {
    assert!(spans(0, vec![]).is_empty());
}

#[test]
fn a_single_char_is_an_upright_line() {
    assert_eq!(spans(1, vec![]), vec![(0, 1, true)]);
}

#[test]
fn horizontally_aligned_pair_is_one_upright_line() {
    assert_eq!(spans(2, vec![(true, false)]), vec![(0, 2, true)]);
}

#[test]
fn unaligned_pair_is_two_lines() {
    assert_eq!(spans(2, vec![(false, false)]), vec![(0, 1, true), (1, 2, true)]);
}

#[test]
fn a_pair_aligned_both_ways_opens_no_line() {
    assert_eq!(spans(2, vec![(true, true)]), vec![(0, 1, true), (1, 2, true)]);
}

#[test]
fn vertically_aligned_pair_is_one_vertical_line() {
    assert_eq!(spans(2, vec![(false, true)]), vec![(0, 2, false)]);
}

#[test]
fn three_aligned_chars_extend_an_open_horizontal_line() {
    assert_eq!(spans(3, vec![(true, false), (true, false)]), vec![(0, 3, true)]);
}

#[test]
fn three_aligned_chars_extend_an_open_vertical_line() {
    assert_eq!(spans(3, vec![(false, true), (false, true)]), vec![(0, 3, false)]);
}

#[test]
fn an_open_line_extends_on_its_own_direction_even_if_aligned_both_ways() {
    assert_eq!(spans(3, vec![(true, false), (true, true)]), vec![(0, 3, true)]);
}

#[test]
fn a_direction_change_closes_the_open_line() {
    assert_eq!(
        spans(3, vec![(true, false), (false, true)]),
        vec![(0, 2, true), (2, 3, true)]
    );
}

#[test]
fn runs_of_chars_keep_their_order_across_lines() {
    // a b | c d | e
    assert_eq!(
        spans(5, vec![(true, false), (false, false), (true, false), (false, false)]),
        vec![(0, 2, true), (2, 4, true), (4, 5, true)]
    );
}

#[test]
fn a_line_opens_right_after_a_closed_one() {
    assert_eq!(
        spans(4, vec![(true, false), (false, false), (false, true)]),
        vec![(0, 2, true), (2, 4, false)]
    );
}
