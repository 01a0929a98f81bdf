use foldhash::fast::FixedState;
use std::hash::{BuildHasher, Hasher};
use symscan::arith::get_num_del_vars_per_string;
use symscan::index::get_del_var_hashes;
use symscan::order::{bytes_equal, dedup_strings};
use symscan::variants::{get_deletion_variants, write_vi_pairs_ci, write_vi_pairs_rawidx};
use symscan::{CrossIndex, MaxDistance};

fn hash_string(s: &str) -> u64 {
    let mut hasher = FixedState::default().build_hasher();
    hasher.write(s.as_bytes());
    hasher.finish()
}

fn threshold(k: u8) -> MaxDistance {
    MaxDistance::try_from(k).expect("legal")
}

#[test]
fn lib_test_get_deletion_variants() {
    let variants = get_del_var_hashes(&b"foo".to_vec(), threshold(1));
    let mut expected = vec![hash_string("fo"), hash_string("foo"), hash_string("oo")];
    expected.sort_unstable();
    assert_eq!(variants, expected);

    let variants = get_del_var_hashes(&b"foo".to_vec(), threshold(2));
    let mut expected = vec![
        hash_string("f"),
        hash_string("fo"),
        hash_string("foo"),
        hash_string("o"),
        hash_string("oo"),
    ];
    expected.sort_unstable();
    assert_eq!(variants, expected);

    let variants = get_del_var_hashes(&b"foo".to_vec(), threshold(10));
    let mut expected = vec![
        hash_string(""),
        hash_string("f"),
        hash_string("fo"),
        hash_string("foo"),
        hash_string("o"),
        hash_string("oo"),
    ];
    expected.sort_unstable();
    assert_eq!(variants, expected);
}

#[test]
fn records_come_by_number_of_deletions_then_by_position() {
    let mut out = Vec::new();
    write_vi_pairs_rawidx(&b"abc".to_vec(), 7, threshold(2), &mut out);
    let expected: Vec<(u64, u32)> = ["abc", "bc", "ac", "ab", "c", "b", "a"]
        .iter()
        .map(|v| (hash_string(v), 7))
        .collect();
    assert_eq!(out, expected);
}

#[test]
fn records_are_appended_after_what_is_there() {
    let mut out = vec![(1u64, 2u32)];
    write_vi_pairs_rawidx(&b"ab".to_vec(), 0, threshold(1), &mut out);
    assert_eq!(
        out,
        vec![(1, 2), (hash_string("ab"), 0), (hash_string("b"), 0), (hash_string("a"), 0)]
    );
}

#[test]
fn the_whole_string_is_the_only_variant_at_zero() {
    let mut out = Vec::new();
    write_vi_pairs_rawidx(&b"fizz".to_vec(), 3, threshold(0), &mut out);
    assert_eq!(out, vec![(hash_string("fizz"), 3)]);
}

#[test]
fn an_empty_string_has_one_record() {
    let mut out = Vec::new();
    write_vi_pairs_rawidx(&Vec::new(), 0, threshold(254), &mut out);
    assert_eq!(out, vec![(hash_string(""), 0)]);
}

#[test]
fn repeated_variants_are_written_once_per_choice() {
    // "oo" delivers "o" twice: once for each position
    let mut out = Vec::new();
    write_vi_pairs_rawidx(&b"oo".to_vec(), 0, threshold(2), &mut out);
    assert_eq!(
        out,
        vec![
            (hash_string("oo"), 0),
            (hash_string("o"), 0),
            (hash_string("o"), 0),
            (hash_string(""), 0)
        ]
    );
}

#[test]
fn as_many_records_as_counted() {
    for text in ["", "a", "fizz", "CASSLGQAYEQYF"] {
        for k in [0u8, 1, 2, 3, 20] {
            let input = text.as_bytes().to_vec();
            let mut out = Vec::new();
            write_vi_pairs_rawidx(&input, 0, threshold(k), &mut out);
            let counted = get_num_del_vars_per_string(&vec![input], threshold(k));
            assert_eq!(out.len(), counted[0]);
        }
    }
}

#[test]
fn tagged_records_carry_the_side_in_the_top_bit() {
    let mut query_side = Vec::new();
    write_vi_pairs_ci(&b"ab".to_vec(), 5, threshold(1), false, &mut query_side);
    assert_eq!(
        query_side,
        vec![(hash_string("ab"), 5), (hash_string("b"), 5), (hash_string("a"), 5)]
    );

    let mut reference_side = Vec::new();
    write_vi_pairs_ci(&b"ab".to_vec(), 5, threshold(1), true, &mut reference_side);
    let word = CrossIndex::from(5, true).to_word();
    assert_eq!(word, 5 | (1 << 31));
    assert_eq!(
        reference_side,
        vec![(hash_string("ab"), word), (hash_string("b"), word), (hash_string("a"), word)]
    );
}

#[test]
fn digests_ascend_without_repeats() {
    let digests = get_del_var_hashes(&b"mississippi".to_vec(), threshold(3));
    assert!(digests.windows(2).all(|w| w[0] < w[1]));
    assert!(digests.contains(&hash_string("mississippi")));
    assert!(digests.contains(&hash_string("missippi")));
    assert!(!digests.contains(&hash_string("mipi")));
}

fn strings_of(strings: &[&str]) -> Vec<Vec<u8>> {
    strings.iter().map(|s| s.as_bytes().to_vec()).collect()
}

#[test]
fn main_test_get_deletion_variants() {
    let variants = get_deletion_variants(&b"foo".to_vec(), threshold(1));
    let mut expected: Vec<Vec<u8>> = Vec::new();
    expected.push("fo".into());
    expected.push("foo".into());
    expected.push("oo".into());
    assert_eq!(variants, expected);

    let variants = get_deletion_variants(&b"foo".to_vec(), threshold(2));
    let mut expected: Vec<Vec<u8>> = Vec::new();
    expected.push("f".into());
    expected.push("fo".into());
    expected.push("foo".into());
    expected.push("o".into());
    expected.push("oo".into());
    assert_eq!(variants, expected);
}

#[test]
fn a_threshold_beyond_the_length_reaches_the_empty_string() {
    assert_eq!(
        get_deletion_variants(&b"foo".to_vec(), threshold(3)),
        strings_of(&["", "f", "fo", "foo", "o", "oo"])
    );
    assert_eq!(
        get_deletion_variants(&b"foo".to_vec(), threshold(10)),
        strings_of(&["", "f", "fo", "foo", "o", "oo"])
    );
    assert_eq!(get_deletion_variants(&Vec::new(), threshold(2)), strings_of(&[""]));
    assert_eq!(get_deletion_variants(&b"abc".to_vec(), threshold(0)), strings_of(&["abc"]));
}

#[test]
fn variants_ascend_in_byte_order() {
    assert_eq!(
        get_deletion_variants(&b"bab".to_vec(), threshold(2)),
        strings_of(&["a", "ab", "b", "ba", "bab", "bb"])
    );
}

#[test]
fn the_digests_are_those_of_the_variant_strings() {
    for text in ["", "fizz", "mississippi"] {
        for k in [0u8, 1, 2, 3] {
            let input = text.as_bytes().to_vec();
            let mut expected: Vec<u64> = get_deletion_variants(&input, threshold(k))
                .iter()
                .map(|v| hash_string(std::str::from_utf8(v).expect("ascii")))
                .collect();
            expected.sort_unstable();
            expected.dedup();
            assert_eq!(get_del_var_hashes(&input, threshold(k)), expected);
        }
    }
}

#[test]
fn equal_strings_are_told_apart_from_unequal_ones() {
    assert!(bytes_equal(&b"abc".to_vec(), &b"abc".to_vec()));
    assert!(bytes_equal(&Vec::new(), &Vec::new()));
    assert!(!bytes_equal(&b"abc".to_vec(), &b"abd".to_vec()));
    assert!(!bytes_equal(&b"abc".to_vec(), &b"ab".to_vec()));
    assert_eq!(
        dedup_strings(strings_of(&["a", "a", "ab", "b", "b", "b"])),
        strings_of(&["a", "ab", "b"])
    );
    assert_eq!(dedup_strings(Vec::new()), Vec::<Vec<u8>>::new());
}
