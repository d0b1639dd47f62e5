use laytext::blocks::{block_groups, component_roots, find, group_by_label, neighbour_pairs, union};

#[test]
fn find_returns_the_root_and_compresses_the_path() {
    let mut parent: Vec<usize> = vec![0, 0, 1, 2];
    assert_eq!(find(&mut parent, 3), 0);
    assert_eq!(parent, vec![0, 0, 0, 0]);
}

#[test]
fn find_on_a_root_changes_nothing() {
    let mut parent: Vec<usize> = vec![0, 0, 2];
    assert_eq!(find(&mut parent, 2), 2);
    assert_eq!(parent, vec![0, 0, 2]);
}

#[test]
fn union_links_the_root_of_a_under_the_root_of_b() {
    let mut parent: Vec<usize> = vec![0, 1, 2];
    union(&mut parent, 0, 2);
    assert_eq!(parent, vec![2, 1, 2]);
    assert_eq!(find(&mut parent, 0), find(&mut parent, 2));
    assert_ne!(find(&mut parent, 1), find(&mut parent, 2));
}

#[test]
fn union_within_one_tree_keeps_every_root() {
    let mut parent: Vec<usize> = vec![1, 1, 1];
    union(&mut parent, 0, 2);
    assert_eq!(parent, vec![1, 1, 1]);
}

#[test]
fn union_of_two_trees_gives_every_node_of_the_first_the_second_root() {
    // trees {0, 1} rooted at 1 and {2, 3} rooted at 3
    let mut parent: Vec<usize> = vec![1, 1, 3, 3];
    union(&mut parent, 0, 2);
    for i in 0..4 {
        assert_eq!(find(&mut parent, i), 3);
    }
}

#[test]
fn component_roots_label_linked_nodes_alike() {
    let roots = component_roots(5, &vec![(0, 3), (4, 1)]);
    assert_eq!(roots.len(), 5);
    assert_eq!(roots[0], roots[3]);
    assert_eq!(roots[1], roots[4]);
    assert_ne!(roots[0], roots[1]);
    assert_ne!(roots[2], roots[0]);
    assert_ne!(roots[2], roots[1]);
}

#[test]
fn group_by_label_orders_groups_by_first_member() {
    let groups = group_by_label(&vec![2, 0, 2, 1]);
    assert_eq!(groups, vec![vec![0, 2], vec![1], vec![3]]);
}

#[test]
fn group_by_label_of_nothing_is_empty() {
    let groups = group_by_label(&vec![]);
    assert!(groups.is_empty());
}

#[test]
fn block_groups_of_no_lines_is_empty() {
    assert!(block_groups(0, &vec![]).is_empty());
}

#[test]
fn block_groups_single_line_is_one_block() {
    assert_eq!(block_groups(1, &vec![]), vec![vec![0]]);
}

#[test]
fn block_groups_transitively_chained_lines_form_one_block() {
    // a-b and b-c are neighbours (found in both directions); a-c are not
    let edges = vec![(0, 1), (1, 0), (1, 2), (2, 1)];
    assert_eq!(block_groups(3, &edges), vec![vec![0, 1, 2]]);
}

#[test]
fn block_groups_lines_without_neighbours_stay_apart() {
    assert_eq!(block_groups(2, &vec![]), vec![vec![0], vec![1]]);
}

#[test]
fn block_groups_one_directional_neighbour_still_joins() {
    assert_eq!(
        block_groups(4, &vec![(3, 0)]),
        vec![vec![0, 3], vec![1], vec![2]]
    );
}

#[test]
fn block_groups_follow_the_smallest_line_of_each_block() {
    let edges = vec![(4, 2), (1, 3), (5, 1)];
    assert_eq!(
        block_groups(6, &edges),
        vec![vec![0], vec![1, 3, 5], vec![2, 4]]
    );
}

#[test]
fn neighbour_pairs_join_only_lines_of_one_direction() {
    // lines 0 and 1 are upright, line 2 is vertical; every neighbour test
    // holds, so only the pairs between the two upright lines qualify
    let upright = vec![true, true, false];
    let all = vec![vec![true; 3]; 3];
    assert_eq!(neighbour_pairs(&upright, &all, &all), vec![(0, 1), (1, 0)]);
}

#[test]
fn neighbour_pairs_use_the_test_of_their_direction() {
    // upright lines 0 and 1 pass only the vertical test; vertical lines 2
    // and 3 pass only the vertical test from 3 to 2
    let upright = vec![true, true, false, false];
    let horizontal = vec![vec![false; 4]; 4];
    let mut vertical = vec![vec![true; 4]; 4];
    vertical[2][3] = false;
    assert_eq!(neighbour_pairs(&upright, &horizontal, &vertical), vec![(3, 2)]);
}

#[test]
fn neighbour_pairs_never_pair_a_line_with_itself() {
    let upright = vec![true];
    assert!(neighbour_pairs(&upright, &vec![vec![true]], &vec![vec![true]]).is_empty());
}

#[test]
fn upright_and_vertical_lines_never_share_a_block() {
    // every neighbour test holds, yet the vertical line 1 stays apart
    let upright = vec![true, false, true];
    let all = vec![vec![true; 3]; 3];
    let pairs = neighbour_pairs(&upright, &all, &all);
    assert_eq!(block_groups(3, &pairs), vec![vec![0, 2], vec![1]]);
}
