use symscan::arith::{
    get_num_del_vars_per_string, get_num_hit_candidates, get_num_k_combs, get_num_vi_pairs,
};
use symscan::span::Span;
use symscan::MaxDistance;

fn bytes_of(strings: &[&str]) -> Vec<Vec<u8>> {
    strings.iter().map(|s| s.as_bytes().to_vec()).collect()
}

#[test]
fn test_nck() {
    let cases = [(5, 2, 10), (5, 5, 1), (5, 0, 1)];
    for (n, k, expected) in cases {
        let result = get_num_k_combs(n, k);
        assert_eq!(result, expected);
    }
}

#[test]
fn lib_test_get_num_k_combinations() {
    let result = get_num_k_combs(5, 2);
    assert_eq!(result, 10);

    let result = get_num_k_combs(5, 0);
    assert_eq!(result, 1);
}

#[test]
fn main_test_get_num_k_combinations() {
    let result = get_num_k_combs(5, 2);
    assert_eq!(result, 10);

    let result = get_num_k_combs(5, 0);
    assert_eq!(result, 1);
}

#[test]
fn test_get_num_del_vars_per_string() {
    let strings = bytes_of(&["foo", "bar", "baz"]);
    let result = get_num_del_vars_per_string(&strings, MaxDistance::try_from(1).expect("legal"));
    assert_eq!(result, vec![4, 4, 4]);
}

#[test]
fn test_get_num_vi_pairs() {
    let strings = bytes_of(&["foo", "bar", "baz"]);
    let result = get_num_del_vars_per_string(&strings, MaxDistance::try_from(1).expect("legal"));
    assert_eq!(result, vec![4, 4, 4]);
}

#[test]
fn test_get_num_hit_candidates() {
    // groups of three, four and two items
    let convergent_indices = vec![Span::new(0, 3), Span::new(3, 4), Span::new(7, 2)];
    let result = get_num_hit_candidates(&convergent_indices);
    assert_eq!(result, 10);
}

#[test]
fn choosing_nothing_of_nothing_is_one_way() {
    assert_eq!(get_num_k_combs(0, 0), 1);
}

#[test]
fn binomials_that_overflow_a_naive_product() {
    // 30! / 15! does not fit in 64 bits, the binomial does
    assert_eq!(get_num_k_combs(30, 15), 155_117_520);
    assert_eq!(get_num_k_combs(62, 31), 465_428_353_255_261_088);
    assert_eq!(get_num_k_combs(254, 1), 254);
    assert_eq!(get_num_k_combs(254, 254), 1);
}

#[test]
fn variant_counts_stop_at_the_string_length() {
    let strings = bytes_of(&["", "a", "ab", "abcd"]);
    let at = |k: u8| get_num_del_vars_per_string(&strings, MaxDistance::try_from(k).expect("legal"));
    assert_eq!(at(0), vec![1, 1, 1, 1]);
    assert_eq!(at(1), vec![1, 2, 3, 5]);
    assert_eq!(at(2), vec![1, 2, 4, 11]);
    assert_eq!(at(3), vec![1, 2, 4, 15]);
    assert_eq!(at(254), vec![1, 2, 4, 16]);
}

#[test]
fn groups_of_fewer_than_two_give_no_pairs() {
    let groups = vec![Span::new(0, 0), Span::new(0, 1), Span::new(1, 2), Span::new(3, 5)];
    assert_eq!(get_num_hit_candidates(&groups), 11);
    assert_eq!(get_num_hit_candidates(&Vec::new()), 0);
}

#[test]
fn records_of_a_collection_are_counted_together() {
    let strings = bytes_of(&["foo", "bar", "baz"]);
    assert_eq!(get_num_vi_pairs(&strings, MaxDistance::try_from(1).expect("legal")), 12);
    assert_eq!(get_num_vi_pairs(&strings, MaxDistance::try_from(0).expect("legal")), 3);
    assert_eq!(get_num_vi_pairs(&strings, MaxDistance::try_from(3).expect("legal")), 24);
    assert_eq!(get_num_vi_pairs(&Vec::new(), MaxDistance::try_from(2).expect("legal")), 0);
}
