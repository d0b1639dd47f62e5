use laytext::ordering::{count_set, last_greatest, permute, runs, stable_order};

#[test]
fn stable_order_sorts_by_key_and_keeps_ties_in_input_order() {
    let keys = vec![(1, 0), (0, 5), (1, 0), (0, 1)];
    assert_eq!(stable_order(&keys), vec![3, 1, 0, 2]);
}

#[test]
fn stable_order_compares_the_second_component_on_ties() {
    let keys = vec![(-3, 7), (-3, -7), (5, 0)];
    assert_eq!(stable_order(&keys), vec![1, 0, 2]);
}

#[test]
fn stable_order_of_nothing_is_empty() {
    assert!(stable_order(&vec![]).is_empty());
}

#[test]
fn last_greatest_prefers_the_later_of_equal_keys() {
    let keys = vec![(2, 10), (3, 5), (3, 5), (1, 0)];
    assert_eq!(last_greatest(&keys), Some(2));
}

#[test]
fn last_greatest_ranks_first_component_before_second() {
    let keys = vec![(3, 0), (2, 100)];
    assert_eq!(last_greatest(&keys), Some(0));
}

#[test]
fn last_greatest_of_nothing_is_none() {
    assert_eq!(last_greatest(&vec![]), None);
}

#[test]
fn runs_split_where_items_do_not_join() {
    assert_eq!(runs(5, &vec![true, false, true, true]), vec![(0, 2), (2, 5)]);
}

#[test]
fn runs_of_a_single_item() {
    assert_eq!(runs(1, &vec![]), vec![(0, 1)]);
}

#[test]
fn runs_of_nothing_are_empty() {
    assert!(runs(0, &vec![]).is_empty());
}

#[test]
fn runs_number_one_more_than_the_breaks() {
    let joins = vec![false, true, false, false, true];
    let cut = runs(6, &joins);
    assert_eq!(cut.len(), 1 + joins.iter().filter(|j| !**j).count());
    assert_eq!(cut, vec![(0, 1), (1, 3), (3, 4), (4, 6)]);
}

#[test]
fn count_set_counts_true_flags() {
    assert_eq!(count_set(&vec![true, false, true, true]), 3);
    assert_eq!(count_set(&vec![]), 0);
}

#[test]
fn a_single_candidate_is_chosen_whatever_its_key() {
    assert_eq!(last_greatest(&vec![(i64::MIN, i64::MIN)]), Some(0));
    assert_eq!(last_greatest(&vec![(0, 7)]), Some(0));
}

#[test]
fn permute_takes_each_item_from_its_position() {
    let items = vec!["a".to_string(), "b".to_string(), "c".to_string()];
    assert_eq!(permute(items, &vec![2, 0, 1]), vec!["c", "a", "b"]);
}

#[test]
fn permute_by_nothing_is_empty() {
    let items: Vec<u8> = vec![1, 2];
    assert!(permute(items, &vec![]).is_empty());
}
