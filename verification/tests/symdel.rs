use symscan::{
    get_candidates_cross, get_candidates_within, symdel_cross, symdel_within, Error, InputType,
    MaxDistance, SparseDistMatrix,
};

const TEST_QUERY: [&str; 5] = ["fizz", "fuzz", "buzz", "izzy", "lofi"];
const TEST_REF: [&str; 3] = ["file", "tofu", "fizz"];

fn bytes_of(strings: &[&str]) -> Vec<Vec<u8>> {
    strings.iter().map(|s| s.as_bytes().to_vec()).collect()
}

fn matrix(row: Vec<u32>, col: Vec<u32>, dists: Vec<u8>) -> SparseDistMatrix {
    SparseDistMatrix { row, col, dists }
}

fn empty() -> SparseDistMatrix {
    matrix(vec![], vec![], vec![])
}

/// The Levenshtein distance by the textbook table.
fn distance(a: &[u8], b: &[u8]) -> usize {
    let mut prev: Vec<usize> = (0..=b.len()).collect();
    for i in 1..=a.len() {
        let mut cur = vec![i; b.len() + 1];
        for j in 1..=b.len() {
            let sub = prev[j - 1] + if a[i - 1] == b[j - 1] { 0 } else { 1 };
            cur[j] = sub.min(prev[j] + 1).min(cur[j - 1] + 1);
        }
        prev = cur;
    }
    prev[b.len()]
}

fn brute_force(query: &[Vec<u8>], reference: &[Vec<u8>], k: u8, within: bool) -> SparseDistMatrix {
    let mut m = empty();
    for (i, a) in query.iter().enumerate() {
        for (j, b) in reference.iter().enumerate() {
            if within && i >= j {
                continue;
            }
            let d = distance(a, b);
            if d <= k as usize {
                m.row.push(i as u32);
                m.col.push(j as u32);
                m.dists.push(d as u8);
            }
        }
    }
    m
}

fn sample() -> Vec<Vec<u8>> {
    bytes_of(&[
        "CASSLGQAYEQYF",
        "CASSLGQAYEQYF",
        "CASSLGQGYEQYF",
        "CASSLGAYEQYF",
        "CASSLGQAYEQY",
        "CASRLGQAYEQYF",
        "CSARDRTGNGYTF",
        "CASSPGQAYEQYF",
        "CASSLGQAYEQYFF",
        "",
        "C",
        "CA",
        "AC",
        "CASSLAPGATNEKLFF",
        "CASSLAPGTTNEKLFF",
        "CSARDRTGNGYT",
    ])
}

#[test]
fn test_symdel_within() {
    let cases = [
        (1, matrix(vec![0, 1], vec![1, 2], vec![1, 1])),
        (2, matrix(vec![0, 0, 0, 1], vec![1, 2, 3, 2], vec![1, 2, 2, 1])),
    ];
    for (mdist, expected) in cases {
        let result = symdel_within(&bytes_of(&TEST_QUERY), mdist).expect("short input");
        assert_eq!(result, expected);
    }
}

#[test]
fn test_symdel_cross() {
    let cases = [
        (1, matrix(vec![0, 1], vec![2, 2], vec![0, 1])),
        (2, matrix(vec![0, 0, 1, 2, 3, 4], vec![0, 2, 2, 2, 2, 1], vec![2, 0, 1, 2, 2, 2])),
    ];
    for (mdist, expected) in cases {
        let result =
            symdel_cross(&bytes_of(&TEST_QUERY), &bytes_of(&TEST_REF), mdist).expect("valid input");
        assert_eq!(result, expected);
    }
}

#[test]
fn within_three_strings_at_one() {
    let result = symdel_within(&bytes_of(&["fizz", "fuzz", "buzz"]), 1).expect("short input");
    assert_eq!(result, matrix(vec![0, 1], vec![1, 2], vec![1, 1]));
}

#[test]
fn within_three_strings_at_two() {
    let result = symdel_within(&bytes_of(&["fizz", "fuzz", "buzz"]), 2).expect("short input");
    assert_eq!(result, matrix(vec![0, 0, 1], vec![1, 2, 2], vec![1, 2, 1]));
}

#[test]
fn cross_three_against_four_at_one() {
    let query = bytes_of(&["fizz", "fuzz", "buzz"]);
    let reference = bytes_of(&["fooo", "barr", "bazz", "buzz"]);
    let result = symdel_cross(&query, &reference, 1).expect("valid input");
    assert_eq!(result, matrix(vec![1, 2, 2], vec![3, 2, 3], vec![1, 1, 0]));
}

#[test]
fn cross_three_against_four_at_two() {
    let query = bytes_of(&["fizz", "fuzz", "buzz"]);
    let reference = bytes_of(&["fooo", "barr", "bazz", "buzz"]);
    let result = symdel_cross(&query, &reference, 2).expect("valid input");
    assert_eq!(
        result,
        matrix(vec![0, 0, 1, 1, 2, 2], vec![2, 3, 2, 3, 2, 3], vec![2, 2, 2, 1, 1, 0])
    );
}

#[test]
fn within_five_strings_at_two() {
    let result = symdel_within(&bytes_of(&TEST_QUERY), 2).expect("short input");
    assert_eq!(result, matrix(vec![0, 0, 0, 1], vec![1, 2, 3, 2], vec![1, 2, 2, 1]));
}

#[test]
fn cross_five_against_three_at_two() {
    let result = symdel_cross(&bytes_of(&TEST_QUERY), &bytes_of(&TEST_REF), 2).expect("valid input");
    assert_eq!(
        result,
        matrix(vec![0, 0, 1, 2, 3, 4], vec![0, 2, 2, 2, 2, 1], vec![2, 0, 1, 2, 2, 2])
    );
}

#[test]
fn within_lists_every_neighbor_pair_once() {
    let strings = sample();
    for k in [0u8, 1, 2, 3] {
        let result = symdel_within(&strings, k).expect("short input");
        assert_eq!(result, brute_force(&strings, &strings, k, true));
    }
}

#[test]
fn cross_lists_every_neighbor_pair_once() {
    let query = sample();
    let reference = bytes_of(&["CASSLGQAYEQYF", "CASSLGQAYEQ", "", "A", "CSARDRTGNGYTF", "XYZ"]);
    for k in [0u8, 1, 2, 3] {
        let result = symdel_cross(&query, &reference, k).expect("valid input");
        assert_eq!(result, brute_force(&query, &reference, k, false));
        let swapped = symdel_cross(&reference, &query, k).expect("valid input");
        assert_eq!(swapped, brute_force(&reference, &query, k, false));
    }
}

#[test]
fn every_entry_is_a_true_distance_within_the_threshold() {
    let strings = sample();
    let result = symdel_within(&strings, 2).expect("short input");
    assert_eq!(result.row.len(), result.col.len());
    assert_eq!(result.row.len(), result.dists.len());
    for t in 0..result.len() {
        let (i, j) = (result.row[t] as usize, result.col[t] as usize);
        assert_eq!(distance(&strings[i], &strings[j]), result.dists[t] as usize);
        assert!(result.dists[t] <= 2);
    }
}

#[test]
fn entries_ascend_by_row_then_column() {
    let strings = sample();
    let within = symdel_within(&strings, 3).expect("short input");
    for t in 0..within.len() {
        assert!(within.row[t] < within.col[t]);
        if t > 0 {
            assert!((within.row[t - 1], within.col[t - 1]) < (within.row[t], within.col[t]));
        }
    }
    let cross = symdel_cross(&strings, &strings, 3).expect("valid input");
    for t in 1..cross.len() {
        assert!((cross.row[t - 1], cross.col[t - 1]) < (cross.row[t], cross.col[t]));
    }
}

#[test]
fn within_is_the_cross_with_itself_above_the_diagonal() {
    let strings = sample();
    for k in [0u8, 1, 2] {
        let within = symdel_within(&strings, k).expect("short input");
        let cross = symdel_cross(&strings, &strings, k).expect("valid input");
        let mut upper = empty();
        for t in 0..cross.len() {
            if cross.row[t] < cross.col[t] {
                upper.row.push(cross.row[t]);
                upper.col.push(cross.col[t]);
                upper.dists.push(cross.dists[t]);
            }
        }
        assert_eq!(within, upper);
        // the diagonal itself is in the cross answer, at distance zero
        for i in 0..strings.len() as u32 {
            let t = (0..cross.len()).find(|&t| cross.row[t] == i && cross.col[t] == i);
            assert_eq!(cross.dists[t.expect("diagonal")], 0);
        }
    }
}

#[test]
fn threshold_zero_finds_exact_duplicates_only() {
    let strings = bytes_of(&["abc", "abd", "abc", "", "abc", ""]);
    let result = symdel_within(&strings, 0).expect("short input");
    assert_eq!(result, matrix(vec![0, 0, 2, 3], vec![2, 4, 4, 5], vec![0, 0, 0, 0]));
    let result = symdel_cross(&strings, &bytes_of(&["abd", ""]), 0).expect("valid input");
    assert_eq!(result, matrix(vec![1, 3, 5], vec![0, 1, 1], vec![0, 0, 0]));
}

#[test]
fn empty_collections_give_empty_arrays() {
    let none: Vec<Vec<u8>> = Vec::new();
    let some = bytes_of(&TEST_QUERY);
    assert_eq!(symdel_within(&none, 2).expect("short input"), empty());
    assert_eq!(symdel_cross(&none, &some, 2).expect("valid input"), empty());
    assert_eq!(symdel_cross(&some, &none, 2).expect("valid input"), empty());
    assert_eq!(symdel_cross(&none, &none, 2).expect("valid input"), empty());
}

#[test]
fn a_single_string_has_no_pair() {
    assert_eq!(symdel_within(&bytes_of(&["fizz"]), 2).expect("short input"), empty());
    assert_eq!(symdel_within(&bytes_of(&[""]), 254).expect("short input"), empty());
}

#[test]
fn strings_no_longer_than_the_threshold_meet_in_the_empty_variant() {
    // every string of at most two bytes has the empty string as a variant at
    // two, so that all of them are candidates for each other
    let strings = bytes_of(&["ab", "cd", "a", "", "xyz", "c"]);
    let candidates = get_candidates_within(&strings, MaxDistance::try_from(2).expect("legal"));
    for pair in [(0, 1), (0, 2), (0, 3), (0, 5), (1, 2), (1, 3), (1, 5), (2, 3), (2, 5), (3, 5)] {
        assert!(candidates.contains(&pair));
    }
    let result = symdel_within(&strings, 2).expect("short input");
    assert_eq!(result, brute_force(&strings, &strings, 2, true));
    assert_eq!(
        result,
        matrix(
            vec![0, 0, 0, 0, 1, 1, 1, 2, 2, 3],
            vec![1, 2, 3, 5, 2, 3, 5, 3, 5, 5],
            vec![2, 1, 2, 2, 2, 2, 1, 1, 1, 1]
        )
    );
}

#[test]
fn threshold_254_succeeds_and_255_is_capped() {
    let strings = bytes_of(&["ab", "b", "abc"]);
    let result = symdel_within(&strings, 254).expect("254 is legal");
    assert_eq!(result, matrix(vec![0, 0, 1], vec![1, 2, 2], vec![1, 1, 2]));
    assert_eq!(symdel_within(&strings, 255), Err(Error::MaxDistCapped));

    let result = symdel_cross(&strings, &strings, 254).expect("254 is legal");
    assert_eq!(result.len(), 9);
    assert_eq!(symdel_cross(&strings, &strings, 255), Err(Error::MaxDistCapped));
}

#[test]
fn candidates_hold_every_neighbor_pair_in_order() {
    let strings = sample();
    let k = MaxDistance::try_from(2).expect("legal");
    let candidates = get_candidates_within(&strings, k);
    assert!(candidates.windows(2).all(|w| w[0] < w[1]));
    assert!(candidates.iter().all(|&(i, j)| i < j && (j as usize) < strings.len()));
    let neighbors = brute_force(&strings, &strings, 2, true);
    for t in 0..neighbors.len() {
        assert!(candidates.contains(&(neighbors.row[t], neighbors.col[t])));
    }

    let reference = bytes_of(&TEST_REF);
    let candidates = get_candidates_cross(&strings, &reference, k);
    assert!(candidates.windows(2).all(|w| w[0] < w[1]));
    let neighbors = brute_force(&strings, &reference, 2, false);
    for t in 0..neighbors.len() {
        assert!(candidates.contains(&(neighbors.row[t], neighbors.col[t])));
    }
}

#[test]
fn too_many_strings_names_the_side_and_the_limit() {
    let e = Error::TooManyStrings { input_type: InputType::Reference, count: 5, limit: 4 };
    assert!(matches!(
        e,
        Error::TooManyStrings { input_type: InputType::Reference, count: 5, limit: 4 }
    ));
    assert_ne!(e, Error::TooManyStrings { input_type: InputType::Query, count: 5, limit: 4 });
}
