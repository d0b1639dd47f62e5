use laytext::blocks::{block_is_tabular, EdgeAlignment};
use laytext::segmentation::{
    cut_orientation, first_cut, full_width_bands, leaf_lines, FirstCut, Orientation, Region,
};
use laytext::skew::{bands_to_fit, skew_estimable};

#[test]
fn full_width_title_above_body_forms_two_bands() {
    assert_eq!(
        full_width_bands(&vec![true, false, false]),
        Some(vec![(0, 1), (1, 3)])
    );
}

#[test]
fn title_body_and_footer_form_three_bands() {
    assert_eq!(
        full_width_bands(&vec![true, false, false, true]),
        Some(vec![(0, 1), (1, 3), (3, 4)])
    );
}

#[test]
fn consecutive_full_width_flags_form_one_band() {
    assert_eq!(
        full_width_bands(&vec![true, true, false, false, false]),
        Some(vec![(0, 2), (2, 5)])
    );
}

#[test]
fn no_full_width_line_declines() {
    assert_eq!(full_width_bands(&vec![false, false]), None);
}

#[test]
fn all_full_width_lines_decline() {
    assert_eq!(full_width_bands(&vec![true, true]), None);
}

#[test]
fn full_width_majority_declines() {
    // a paragraph whose short last line is the only narrow one
    assert_eq!(full_width_bands(&vec![true, true, false]), None);
}

#[test]
fn alternating_single_line_bands_decline() {
    assert_eq!(full_width_bands(&vec![false, true, false, true]), None);
}

#[test]
fn more_than_three_bands_decline() {
    let flags = vec![true, false, false, true, false, false, true, false, false];
    assert_eq!(full_width_bands(&flags), None);
}

#[test]
fn two_line_justified_paragraph_declines() {
    assert_eq!(full_width_bands(&vec![true, false]), None);
}

#[test]
fn wider_gap_axis_wins_and_ties_go_to_columns() {
    assert_eq!(cut_orientation(true, true, true), Some(Orientation::Vertical));
    assert_eq!(cut_orientation(true, true, false), Some(Orientation::Horizontal));
    assert_eq!(cut_orientation(true, false, false), Some(Orientation::Vertical));
    assert_eq!(cut_orientation(false, true, true), Some(Orientation::Horizontal));
    assert_eq!(cut_orientation(false, false, true), None);
}

fn edge(internal: bool, touching: Vec<bool>) -> EdgeAlignment {
    EdgeAlignment { internal, touching }
}

#[test]
fn repeated_internal_edge_in_most_lines_is_tabular() {
    // rows (0, 100), (20, 80), (20, 80) of a block spanning 0..100
    let lines = vec![
        (edge(false, vec![true, false, false]), edge(false, vec![true, false, false])),
        (edge(true, vec![false, true, true]), edge(true, vec![false, true, true])),
        (edge(true, vec![false, true, true]), edge(true, vec![false, true, true])),
    ];
    assert!(block_is_tabular(&lines));
}

#[test]
fn ragged_right_paragraph_is_not_tabular() {
    // rows (0, 100), (0, 70), (0, 90): only the outer left edge is shared
    let lines = vec![
        (edge(false, vec![true, true, true]), edge(false, vec![true, false, false])),
        (edge(false, vec![true, true, true]), edge(true, vec![false, true, false])),
        (edge(false, vec![true, true, true]), edge(true, vec![false, false, true])),
    ];
    assert!(!block_is_tabular(&lines));
}

#[test]
fn two_line_block_is_never_tabular() {
    let lines = vec![
        (edge(true, vec![true, true]), edge(false, vec![true, false])),
        (edge(false, vec![true, false]), edge(true, vec![true, true])),
    ];
    assert!(!block_is_tabular(&lines));
}

#[test]
fn exactly_half_aligned_lines_are_not_tabular() {
    let repeated = || (edge(true, vec![true, true, false, false]), edge(false, vec![false; 4]));
    let plain = || (edge(false, vec![false; 4]), edge(false, vec![false; 4]));
    assert!(!block_is_tabular(&vec![repeated(), repeated(), plain(), plain()]));
    assert!(block_is_tabular(&vec![repeated(), repeated(), repeated(), plain()]));
}

#[test]
fn only_bands_of_four_or_more_chars_are_fitted() {
    assert_eq!(
        bands_to_fit(&vec![(0, 3), (3, 7), (7, 12), (12, 13)]),
        vec![(3, 7), (7, 12)]
    );
}

#[test]
fn leaves_come_in_reading_order() {
    let leaf = |lines: Vec<u32>| Region::Leaf { bbox: (), lines };
    let tree: Region<(), u32> = Region::Split {
        bbox: (),
        orientation: Orientation::Horizontal,
        children: vec![
            leaf(vec![1, 2]),
            Region::Split {
                bbox: (),
                orientation: Orientation::Vertical,
                children: vec![leaf(vec![3]), leaf(vec![])],
            },
            leaf(vec![4]),
        ],
    };
    assert_eq!(leaf_lines(tree), vec![vec![1, 2], vec![3], vec![], vec![4]]);
}

#[test]
fn a_single_leaf_is_its_own_region() {
    let tree: Region<(), u32> = Region::Leaf { bbox: (), lines: vec![7, 8] };
    assert_eq!(leaf_lines(tree), vec![vec![7, 8]]);
}

#[test]
fn a_region_of_at_most_one_line_is_a_leaf() {
    assert!(matches!(first_cut(&vec![]), FirstCut::Leaf));
    assert!(matches!(first_cut(&vec![true]), FirstCut::Leaf));
}

#[test]
fn the_full_width_split_comes_before_a_whitespace_cut() {
    match first_cut(&vec![true, false, false]) {
        FirstCut::Bands(bands) => assert_eq!(bands, vec![(0, 1), (1, 3)]),
        _ => panic!("expected the full-width split"),
    }
}

#[test]
fn a_declined_full_width_split_leads_to_a_whitespace_cut() {
    assert!(matches!(first_cut(&vec![false, false]), FirstCut::WhitespaceCut));
    assert!(matches!(first_cut(&vec![true, true]), FirstCut::WhitespaceCut));
}

#[test]
fn skew_needs_three_fitted_bands() {
    assert!(!skew_estimable(0));
    assert!(!skew_estimable(2));
    assert!(skew_estimable(3));
    assert!(skew_estimable(7));
}
