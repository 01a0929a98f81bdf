use symscan::output::push_decimal;
use symscan::{symdel_within, write_true_results, SparseDistMatrix};

fn decimal(n: u64) -> String {
    let mut out = Vec::new();
    push_decimal(&mut out, n);
    String::from_utf8(out).expect("digits")
}

#[test]
fn numbers_are_written_in_decimal() {
    for n in [0u64, 1, 9, 10, 11, 99, 100, 255, 1000, 4294967295, 4294967296, u64::MAX] {
        assert_eq!(decimal(n), n.to_string());
    }
}

#[test]
fn digits_follow_what_is_there() {
    let mut out = b"x=".to_vec();
    push_decimal(&mut out, 1203);
    assert_eq!(out, b"x=1203".to_vec());
}

#[test]
fn lines_count_from_one_unless_asked() {
    let m = SparseDistMatrix { row: vec![0, 0, 9], col: vec![1, 2, 99], dists: vec![1, 2, 0] };
    assert_eq!(write_true_results(&m, false), b"1,2,1\n1,3,2\n10,100,0\n".to_vec());
    assert_eq!(write_true_results(&m, true), b"0,1,1\n0,2,2\n9,99,0\n".to_vec());
}

#[test]
fn the_largest_position_is_written_whole() {
    let m = SparseDistMatrix { row: vec![u32::MAX - 1], col: vec![u32::MAX], dists: vec![254] };
    assert_eq!(write_true_results(&m, false), b"4294967295,4294967296,254\n".to_vec());
    assert_eq!(write_true_results(&m, true), b"4294967294,4294967295,254\n".to_vec());
}

#[test]
fn no_entries_no_text() {
    let m = SparseDistMatrix { row: vec![], col: vec![], dists: vec![] };
    assert_eq!(write_true_results(&m, false), Vec::<u8>::new());
}

#[test]
fn only_whole_entries_are_written() {
    let m = SparseDistMatrix { row: vec![0, 1], col: vec![1, 2, 3], dists: vec![1] };
    assert_eq!(write_true_results(&m, true), b"0,1,1\n".to_vec());
}

#[test]
fn the_answer_of_a_search_as_text() {
    let query: Vec<Vec<u8>> =
        ["fizz", "fuzz", "buzz"].iter().map(|s| s.as_bytes().to_vec()).collect();
    let hits = symdel_within(&query, 2).expect("short input");
    assert_eq!(write_true_results(&hits, false), b"1,2,1\n1,3,2\n2,3,1\n".to_vec());
}
