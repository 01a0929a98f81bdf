use symscan::{symdel_cross, symdel_within, CachedRef, Error, SparseDistMatrix};

const TEST_QUERY: [&str; 5] = ["fizz", "fuzz", "buzz", "izzy", "lofi"];
const TEST_REF: [&str; 3] = ["file", "tofu", "fizz"];

fn bytes_of(strings: &[&str]) -> Vec<Vec<u8>> {
    strings.iter().map(|s| s.as_bytes().to_vec()).collect()
}

fn matrix(row: Vec<u32>, col: Vec<u32>, dists: Vec<u8>) -> SparseDistMatrix {
    SparseDistMatrix { row, col, dists }
}

fn sample() -> Vec<Vec<u8>> {
    bytes_of(&[
        "CASSLGQAYEQYF",
        "CASSLGQAYEQYF",
        "CASSLGQGYEQYF",
        "CASSLGAYEQYF",
        "CASSLGQAYEQY",
        "",
        "C",
        "CA",
        "CSARDRTGNGYTF",
        "CSARDRTGNGYT",
    ])
}

#[test]
fn test_symdel_within_cached() {
    let cached = CachedRef::new(&bytes_of(&TEST_QUERY), 2).expect("short input");
    let cases = [
        (1, matrix(vec![0, 1], vec![1, 2], vec![1, 1])),
        (2, matrix(vec![0, 0, 0, 1], vec![1, 2, 3, 2], vec![1, 2, 2, 1])),
    ];
    for (mdist, expected) in cases {
        let result = cached.symdel_within(mdist).expect("legal max dist");
        assert_eq!(result, expected);
    }
}

#[test]
fn test_get_candidates_cross_partially_cached() {
    let cached = CachedRef::new(&bytes_of(&TEST_REF), 2).expect("short input");
    let cases = [
        (1, matrix(vec![0, 1], vec![2, 2], vec![0, 1])),
        (2, matrix(vec![0, 0, 1, 2, 3, 4], vec![0, 2, 2, 2, 2, 1], vec![2, 0, 1, 2, 2, 2])),
    ];
    for (mdist, expected) in cases {
        let result = cached.symdel_cross(&bytes_of(&TEST_QUERY), mdist).expect("legal max dist");
        assert_eq!(result, expected);
    }
}

#[test]
fn test_get_candidates_cross_fully_cached() {
    let cached_q = CachedRef::new(&bytes_of(&TEST_QUERY), 2).expect("short input");
    let cached_r = CachedRef::new(&bytes_of(&TEST_REF), 2).expect("short input");
    let cases = [
        (1, matrix(vec![0, 1], vec![2, 2], vec![0, 1])),
        (2, matrix(vec![0, 0, 1, 2, 3, 4], vec![0, 2, 2, 2, 2, 1], vec![2, 0, 1, 2, 2, 2])),
    ];
    for (mdist, expected) in cases {
        let result = cached_r.symdel_cross_against_cached(&cached_q, mdist).expect("legal max dist");
        assert_eq!(result, expected);
    }
}

#[test]
fn cached_cross_of_the_documented_example() {
    let reference = bytes_of(&["fooo", "barr", "bazz", "buzz"]);
    let cached = CachedRef::new(&reference, 1).expect("valid reference");
    let SparseDistMatrix { row, col, dists } =
        cached.symdel_cross(&bytes_of(&["fizz", "fuzz", "buzz"]), 1).expect("valid query");
    assert_eq!(row, vec![1, 2, 2]);
    assert_eq!(col, vec![3, 2, 3]);
    assert_eq!(dists, vec![1, 1, 0]);
}

#[test]
fn a_cached_reference_answers_as_the_fresh_search() {
    let reference = sample();
    let query = bytes_of(&["CASSLGQAYEQYF", "CSARDRTGNGY", "", "CC", "XYZ"]);
    let cached = CachedRef::new(&reference, 3).expect("short input");
    let cached_query = CachedRef::new(&query, 2).expect("short input");
    for k in [0u8, 1, 2] {
        assert_eq!(cached.symdel_within(k), symdel_within(&reference, k));
        assert_eq!(cached.symdel_cross(&query, k), symdel_cross(&query, &reference, k));
        assert_eq!(
            cached.symdel_cross_against_cached(&cached_query, k),
            symdel_cross(&query, &reference, k)
        );
        assert_eq!(
            cached_query.symdel_cross_against_cached(&cached, k),
            symdel_cross(&reference, &query, k)
        );
    }
    assert_eq!(cached.symdel_within(3), symdel_within(&reference, 3));
    assert_eq!(cached.symdel_cross(&query, 3), symdel_cross(&query, &reference, 3));
}

#[test]
fn two_caches_of_the_same_input_answer_alike() {
    let reference = sample();
    let query = bytes_of(&TEST_QUERY);
    let first = CachedRef::new(&reference, 2).expect("short input");
    let second = CachedRef::new(&reference, 2).expect("short input");
    for k in [0u8, 1, 2] {
        assert_eq!(first.symdel_within(k), second.symdel_within(k));
        assert_eq!(first.symdel_cross(&query, k), second.symdel_cross(&query, k));
        assert_eq!(
            first.symdel_cross_against_cached(&second, k),
            second.symdel_cross_against_cached(&first, k)
        );
    }
}

#[test]
fn a_query_above_the_cache_bound_fails() {
    let cached = CachedRef::new(&bytes_of(&TEST_REF), 1).expect("short input");
    let wider = CachedRef::new(&bytes_of(&TEST_QUERY), 3).expect("short input");
    let too_large = Err(Error::MaxDistTooLargeForCache { got: 2, limit: 1 });
    assert_eq!(cached.symdel_within(2), too_large);
    assert_eq!(cached.symdel_cross(&bytes_of(&TEST_QUERY), 2), too_large);
    assert_eq!(cached.symdel_cross_against_cached(&wider, 2), too_large);
    // the bound of the query's cache counts as well
    assert_eq!(wider.symdel_cross_against_cached(&cached, 2), too_large);
    assert_eq!(
        wider.symdel_cross_against_cached(&cached, 254),
        Err(Error::MaxDistTooLargeForCache { got: 254, limit: 3 })
    );
    assert!(cached.symdel_within(1).is_ok());
    assert!(wider.symdel_cross_against_cached(&cached, 1).is_ok());
}

#[test]
fn the_cap_comes_before_the_cache_bound() {
    assert!(matches!(CachedRef::new(&bytes_of(&TEST_REF), 255), Err(Error::MaxDistCapped)));
    let cached = CachedRef::new(&bytes_of(&TEST_REF), 254).expect("254 is legal");
    assert_eq!(cached.symdel_within(255), Err(Error::MaxDistCapped));
    assert_eq!(cached.symdel_cross(&bytes_of(&TEST_QUERY), 255), Err(Error::MaxDistCapped));
    assert_eq!(cached.symdel_cross_against_cached(&cached, 255), Err(Error::MaxDistCapped));
    assert_eq!(
        cached.symdel_within(254),
        Ok(matrix(vec![0, 0, 1], vec![1, 2, 2], vec![4, 2, 4]))
    );
}

#[test]
fn an_empty_cache_has_nothing_to_find() {
    let none: Vec<Vec<u8>> = Vec::new();
    let cached = CachedRef::new(&none, 2).expect("short input");
    let empty = matrix(vec![], vec![], vec![]);
    assert_eq!(cached.symdel_within(2), Ok(empty.clone()));
    assert_eq!(cached.symdel_cross(&bytes_of(&TEST_QUERY), 1), Ok(empty.clone()));
    assert_eq!(cached.symdel_cross(&none, 1), Ok(empty.clone()));
    let other = CachedRef::new(&bytes_of(&TEST_QUERY), 2).expect("short input");
    assert_eq!(other.symdel_cross(&none, 1), Ok(empty.clone()));
    assert_eq!(other.symdel_cross_against_cached(&cached, 2), Ok(empty.clone()));
    assert_eq!(cached.symdel_cross_against_cached(&other, 2), Ok(empty));
}

#[test]
fn a_single_cached_string_has_no_pair_but_can_be_matched() {
    let cached = CachedRef::new(&bytes_of(&["fizz"]), 2).expect("short input");
    assert_eq!(cached.symdel_within(2), Ok(matrix(vec![], vec![], vec![])));
    assert_eq!(
        cached.symdel_cross(&bytes_of(&TEST_QUERY), 2),
        Ok(matrix(vec![0, 1, 2, 3], vec![0, 0, 0, 0], vec![0, 1, 2, 2]))
    );
}
