use symscan::levenshtein::{distance_within, levenshtein_by_table, ABOVE_THRESHOLD};
use symscan::MaxDistance;

fn threshold(k: u8) -> MaxDistance {
    MaxDistance::try_from(k).expect("legal")
}

const WORDS: [&str; 12] = [
    "",
    "a",
    "b",
    "ab",
    "ba",
    "abc",
    "kitten",
    "sitting",
    "flaw",
    "lawn",
    "CASSLGQAYEQYF",
    "CSARDRTGNGYTF",
];

#[test]
fn known_distances() {
    assert_eq!(levenshtein_by_table(b"kitten", b"sitting"), 3);
    assert_eq!(levenshtein_by_table(b"flaw", b"lawn"), 2);
    assert_eq!(levenshtein_by_table(b"CA", b"ABC"), 3);
    assert_eq!(levenshtein_by_table(b"", b""), 0);
    assert_eq!(levenshtein_by_table(b"", b"abc"), 3);
    assert_eq!(levenshtein_by_table(b"abc", b""), 3);
    assert_eq!(levenshtein_by_table(b"abc", b"abc"), 0);
    assert_eq!(levenshtein_by_table(b"ab", b"ba"), 2);
}

#[test]
fn the_bounded_distance_is_the_distance_or_the_sentinel() {
    for a in WORDS {
        for b in WORDS {
            let exact = levenshtein_by_table(a.as_bytes(), b.as_bytes());
            for k in [0u8, 1, 2, 3, 4, 5, 10, 254] {
                let expected = if exact <= k as usize { exact as u8 } else { ABOVE_THRESHOLD };
                assert_eq!(distance_within(a.as_bytes(), b.as_bytes(), threshold(k)), expected);
            }
        }
    }
}

#[test]
fn the_distance_is_symmetric_and_zero_on_equal_strings() {
    for a in WORDS {
        assert_eq!(levenshtein_by_table(a.as_bytes(), a.as_bytes()), 0);
        assert_eq!(distance_within(a.as_bytes(), a.as_bytes(), threshold(0)), 0);
        for b in WORDS {
            assert_eq!(
                levenshtein_by_table(a.as_bytes(), b.as_bytes()),
                levenshtein_by_table(b.as_bytes(), a.as_bytes())
            );
        }
    }
}

#[test]
fn lengths_further_apart_than_the_threshold_are_above_it() {
    let long = vec![b'x'; 1000];
    let short = vec![b'x'; 990];
    assert_eq!(distance_within(&long, &short, threshold(9)), ABOVE_THRESHOLD);
    assert_eq!(distance_within(&long, &short, threshold(10)), 10);
    assert_eq!(distance_within(&short, &long, threshold(10)), 10);
    assert_eq!(levenshtein_by_table(&long, &short), 10);
}
