use itertools::Itertools;
use symscan::candidates::{
    get_hit_candidates_from_cis_cross, get_hit_candidates_within, pairs_of_group, product_of_group,
};
use symscan::order::{dedup_pairs, dedup_records};
use symscan::parallel::flatten;
use symscan::span::Span;
use symscan::{collect_true_hits, compute_dists, get_true_hits, MaxDistance, SparseDistMatrix};

const TEST_QUERY: [&str; 5] = ["fizz", "fuzz", "buzz", "izzy", "lofi"];
const TEST_REF: [&str; 3] = ["file", "tofu", "fizz"];

fn bytes_of(strings: &[&str]) -> Vec<Vec<u8>> {
    strings.iter().map(|s| s.as_bytes().to_vec()).collect()
}

fn threshold(k: u8) -> MaxDistance {
    MaxDistance::try_from(k).expect("legal")
}

#[test]
fn test_compute_dists() {
    let cases = [
        (
            (0..5u32).tuple_combinations().collect_vec(),
            &TEST_QUERY[..],
            MaxDistance::try_from(1).expect("legal"),
            vec![1, 255, 255, 255, 1, 255, 255, 255, 255, 255],
        ),
        (
            (0..5u32).tuple_combinations().collect_vec(),
            &TEST_QUERY[..],
            MaxDistance::try_from(2).expect("legal"),
            vec![1, 2, 2, 255, 1, 255, 255, 255, 255, 255],
        ),
        (
            (0..5u32).cartesian_product(0..3u32).collect_vec(),
            &TEST_REF[..],
            MaxDistance::try_from(1).expect("legal"),
            vec![255, 255, 0, 255, 255, 1, 255, 255, 255, 255, 255, 255, 255, 255, 255],
        ),
        (
            (0..5u32).cartesian_product(0..3u32).collect_vec(),
            &TEST_REF[..],
            MaxDistance::try_from(2).expect("legal"),
            vec![2, 255, 0, 255, 255, 1, 255, 255, 2, 255, 255, 2, 255, 2, 255],
        ),
    ];

    for (candidates, reference, mdist, expected) in cases {
        let results = compute_dists(&candidates, &bytes_of(&TEST_QUERY), &bytes_of(reference), mdist);
        assert_eq!(results, expected);
    }
}

#[test]
fn test_get_true_hits() {
    let cases = [
        (
            (0..5u32).tuple_combinations().collect_vec(),
            vec![1, 255, 255, 255, 1, 255, 255, 255, 255, 255],
            MaxDistance::try_from(1).expect("legal"),
            SparseDistMatrix { row: vec![0, 1], col: vec![1, 2], dists: vec![1, 1] },
        ),
        (
            (0..5u32).tuple_combinations().collect_vec(),
            vec![1, 2, 2, 255, 1, 255, 255, 255, 255, 255],
            MaxDistance::try_from(2).expect("legal"),
            SparseDistMatrix {
                row: vec![0, 0, 0, 1],
                col: vec![1, 2, 3, 2],
                dists: vec![1, 2, 2, 1],
            },
        ),
    ];

    for (candidates, dists, mdist, expected) in cases {
        let result = collect_true_hits(&candidates, &dists, mdist);
        assert_eq!(result, expected);
    }
}

#[test]
fn distances_are_exact_up_to_the_threshold() {
    let query = bytes_of(&["kitten", "", "abc", "flaw"]);
    let reference = bytes_of(&["sitting", "abc", "", "lawn"]);
    let pairs = vec![(0, 0), (1, 1), (2, 2), (3, 3), (2, 1), (1, 2)];
    assert_eq!(compute_dists(&pairs, &query, &reference, threshold(3)), vec![3, 3, 3, 2, 0, 0]);
    assert_eq!(compute_dists(&pairs, &query, &reference, threshold(2)), vec![255, 255, 255, 2, 0, 0]);
    assert_eq!(compute_dists(&pairs, &query, &reference, threshold(0)), vec![255, 255, 255, 255, 0, 0]);
    assert_eq!(compute_dists(&pairs, &query, &reference, threshold(254)), vec![3, 3, 3, 2, 0, 0]);
}

#[test]
fn distance_254_is_a_distance_and_not_the_sentinel() {
    let long = vec![vec![b'a'; 254]];
    let empty = vec![Vec::new()];
    assert_eq!(compute_dists(&vec![(0, 0)], &long, &empty, threshold(254)), vec![254]);
    assert_eq!(compute_dists(&vec![(0, 0)], &long, &empty, threshold(253)), vec![255]);
    let longer = vec![vec![b'a'; 300]];
    assert_eq!(compute_dists(&vec![(0, 0)], &longer, &empty, threshold(254)), vec![255]);
}

#[test]
fn no_candidates_no_distances() {
    let query = bytes_of(&TEST_QUERY);
    assert_eq!(compute_dists(&Vec::new(), &query, &query, threshold(1)), Vec::<u8>::new());
}

#[test]
fn the_collector_stops_at_the_shorter_array() {
    let candidates = vec![(0, 1), (0, 2), (1, 2)];
    let result = collect_true_hits(&candidates, &vec![1, 0], threshold(1));
    assert_eq!(result, SparseDistMatrix { row: vec![0, 0], col: vec![1, 2], dists: vec![1, 0] });
    assert_eq!(result.len(), 2);
    let result = collect_true_hits(&vec![(4, 5)], &vec![2, 0, 0], threshold(1));
    assert_eq!(result, SparseDistMatrix { row: vec![], col: vec![], dists: vec![] });
    assert_eq!(result.len(), 0);
}

#[test]
fn a_distance_equal_to_the_threshold_is_kept() {
    let result = collect_true_hits(&vec![(0, 1), (2, 3)], &vec![3, 4], threshold(3));
    assert_eq!(result, SparseDistMatrix { row: vec![0], col: vec![1], dists: vec![3] });
}

#[test]
fn line_numbers_count_from_one_unless_asked() {
    let query = bytes_of(&TEST_QUERY);
    let candidates = (0..5u32).tuple_combinations().collect_vec();
    let one_based = get_true_hits(&candidates, &query, &query, threshold(2), false);
    assert_eq!(one_based, (vec![1, 1, 1, 2], vec![2, 3, 4, 3], vec![1, 2, 2, 1]));
    let zero_based = get_true_hits(&candidates, &query, &query, threshold(2), true);
    assert_eq!(zero_based, (vec![0, 0, 0, 1], vec![1, 2, 3, 2], vec![1, 2, 2, 1]));
}

#[test]
fn pairs_of_a_group_in_order() {
    let store = vec![9, 4, 7, 1, 3];
    assert_eq!(pairs_of_group(&store, Span::new(1, 3)), vec![(4, 7), (4, 1), (7, 1)]);
    assert_eq!(pairs_of_group(&store, Span::new(0, 1)), vec![]);
    assert_eq!(pairs_of_group(&store, Span::new(2, 0)), vec![]);
    assert_eq!(
        pairs_of_group(&store, Span::new(0, 4)),
        (0..4usize).tuple_combinations().map(|(a, b)| (store[a], store[b])).collect_vec()
    );
}

#[test]
fn product_of_a_group_in_order() {
    let q = vec![1, 2, 3];
    let r = vec![10, 20];
    assert_eq!(
        product_of_group(&q, Span::new(1, 2), &r, Span::new(0, 2)),
        vec![(2, 10), (2, 20), (3, 10), (3, 20)]
    );
    assert_eq!(product_of_group(&q, Span::new(0, 0), &r, Span::new(0, 2)), vec![]);
    assert_eq!(product_of_group(&q, Span::new(0, 3), &r, Span::new(1, 0)), vec![]);
}

#[test]
fn candidates_within_are_sorted_and_unique() {
    // two groups that both hold 1 and 5, out of order across groups
    let store = vec![3, 5, 8, 1, 5];
    let groups = vec![Span::new(0, 3), Span::new(3, 2)];
    assert_eq!(get_hit_candidates_within(&store, &groups), vec![(1, 5), (3, 5), (3, 8), (5, 8)]);
    let store = vec![1, 5, 1, 5, 7];
    let groups = vec![Span::new(0, 2), Span::new(2, 3)];
    assert_eq!(get_hit_candidates_within(&store, &groups), vec![(1, 5), (1, 7), (5, 7)]);
    assert_eq!(get_hit_candidates_within(&store, &Vec::new()), vec![]);
}

#[test]
fn candidates_across_are_sorted_and_unique() {
    let store_q = vec![2, 0, 2];
    let store_r = vec![4, 1, 1];
    let groups = vec![(Span::new(0, 2), Span::new(0, 2)), (Span::new(2, 1), Span::new(2, 1))];
    assert_eq!(
        get_hit_candidates_from_cis_cross(&store_q, &store_r, &groups),
        vec![(0, 1), (0, 4), (2, 1), (2, 4)]
    );
}

#[test]
fn dedup_keeps_one_of_each() {
    let mut records = vec![(1u64, 0u32), (1, 0), (1, 1), (2, 0), (2, 0), (2, 0)];
    dedup_records(&mut records);
    assert_eq!(records, vec![(1, 0), (1, 1), (2, 0)]);
    let mut pairs = vec![(0u32, 1u32), (0, 2), (0, 2), (3, 4)];
    dedup_pairs(&mut pairs);
    assert_eq!(pairs, vec![(0, 1), (0, 2), (3, 4)]);
    let mut none: Vec<(u32, u32)> = Vec::new();
    dedup_pairs(&mut none);
    assert_eq!(none, vec![]);
}

#[test]
fn flatten_joins_in_order() {
    assert_eq!(flatten(&vec![vec![1, 2], vec![], vec![3]]), vec![1, 2, 3]);
    assert_eq!(flatten(&Vec::<Vec<u8>>::new()), Vec::<u8>::new());
}
