use kingfisher_bnb::correction::{first_passing, pair_groups, support_histogram, support_pairs};

#[test]
fn histogram_of_supports() {
    assert_eq!(support_histogram(&[5, 1, 5, 3, 5]), vec![(1, 1), (3, 1), (5, 3)]);
    assert_eq!(support_histogram(&[]), Vec::<(usize, usize)>::new());
}

#[test]
fn three_equal_supports_make_three_pairs() {
    let (groups, total) = pair_groups(&[5, 5, 5]);
    assert_eq!(total, 3);
    assert_eq!(groups, vec![(5, 5, 3)]);
}

#[test]
fn mixed_supports_make_three_pairs() {
    let (groups, total) = pair_groups(&[1, 5, 5]);
    assert_eq!(total, 3);
    assert_eq!(groups, vec![(1, 5, 2), (5, 5, 1)]);
}

#[test]
fn five_items_make_ten_pairs() {
    let (groups, total) = pair_groups(&[25, 25, 25, 25, 25]);
    assert_eq!(total, 10);
    assert_eq!(groups, vec![(25, 25, 10)]);
}

#[test]
fn pairs_of_a_histogram() {
    let (groups, total) = support_pairs(&[(1, 2), (4, 1), (6, 3)]);
    assert_eq!(total, 15);
    assert_eq!(groups, vec![(1, 1, 1), (1, 4, 2), (1, 6, 6), (4, 6, 3), (6, 6, 3)]);
}

#[test]
fn single_item_has_no_pairs() {
    let (groups, total) = pair_groups(&[4]);
    assert_eq!(total, 0);
    assert!(groups.is_empty());
}

#[test]
fn first_passing_finds_the_smallest() {
    assert_eq!(first_passing(10, |k| k >= 4), 4);
    assert_eq!(first_passing(10, |k| k >= 1), 1);
    assert_eq!(first_passing(10, |_| false), 10);
    assert_eq!(first_passing(0, |_| false), 1);
    assert_eq!(first_passing(1, |_| true), 1);
}
